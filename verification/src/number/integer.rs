//! Non-negative integers as limb vectors that keep their length: a value may
//! carry most-significant zero limbs, and the operations state both the value
//! and the limb count they leave.
use vstd::prelude::*;
use vstd::arithmetic::mul::*;
use vstd::arithmetic::div_mod::*;
use vstd::arithmetic::power2::*;
use vstd::bits::{lemma_u64_shr_is_div, lemma_u64_shl_is_mul, lemma_u64_pow2_no_overflow};
use crate::limbs::{
    base, bpow, limbs_value, limb_len, lemma_bpow_pos, lemma_bpow_mono, lemma_value_bound,
    lemma_value_concat, lemma_value_split, lemma_value_zero, lemma_value_take_step,
    lemma_value_push, lemma_value_skip_step, lemma_top_zero_iff, lemma_limb_len_unique,
    lemma_normalized_len, is_normalized, lemma_split_u128, lemma_mul_acc_step, lemma_value_update,
    lemma_shr_limb, lemma_mod_pow2_low_limb, lemma_base_split, lemma_carry_step, zeros,
    lemma_bpow_add, lemma_value_drop_zero, lemma_complement_value, lemma_limb_len, digit,
    prefix_value, lemma_prefix_value, lemma_borrow_step, lemma_set_step,
};
use super::Digit;
use crate::digits::{digits, limbs_text, at_least, zero_chars, append_digits, append_limbs_text};

verus! {

/// A non-negative integer whose limbs, least significant first, are public.
#[derive(Debug, Clone)]
pub struct Integer {
    pub limbs: Vec<Digit>,
}

impl View for Integer {
    type V = nat;

    /// The number the limbs denote.
    open spec fn view(&self) -> nat {
        limbs_value(self.limbs@)
    }
}

impl Integer {
    /// The number of limbs, zero limbs at the top included.
    pub fn len(&self) -> (n: usize)
        ensures
            n == self.limbs@.len(),
    {
        self.limbs.len()
    }

    /// The single-limb integer `value` (a zero value keeps its one limb).
    pub fn from_u64(value: u64) -> (r: Self)
        ensures
            r.limbs@ == seq![value],
            r@ == value,
    {
        let mut limbs = Vec::new();
        limbs.push(value);
        proof {
            assert(limbs@ =~= seq![value]);
            assert(limbs@.skip(1) =~= Seq::<u64>::empty());
            assert(limbs_value(limbs@.skip(1)) == 0);
            assert(limbs_value(limbs@) == value);
        }
        Integer { limbs }
    }

    /// The `n` most significant limbs (all of them when there are fewer).
    pub fn get_leading(&self, n: usize) -> (r: Integer)
        ensures
            r.limbs@ == self.limbs@.skip(self.limbs@.len() - (if n < self.limbs@.len() {
                n as int
            } else {
                self.limbs@.len() as int
            })),
    {
        let len = self.limbs.len();
        let n = if n < len { n } else { len };
        let start = len - n;
        let mut limbs: Vec<Digit> = Vec::new();
        let mut i = start;
        while i < len
            invariant
                start <= i <= len,
                len == self.limbs@.len(),
                limbs@ == self.limbs@.subrange(start as int, i as int),
            decreases len - i,
        {
            limbs.push(self.limbs[i]);
            i += 1;
            proof {
                assert(limbs@ =~= self.limbs@.subrange(start as int, i as int));
            }
        }
        proof {
            assert(limbs@ =~= self.limbs@.skip(start as int));
        }
        Integer { limbs }
    }

    /// Prepend `n` zero limbs: the value times `bpow(n)`.
    pub fn shift_up_limbs(&mut self, n: usize)
        requires
            old(self).limbs@.len() + n <= usize::MAX,
        ensures
            final(self).limbs@ == Seq::new(n as nat, |i: int| 0u64) + old(self).limbs@,
            final(self)@ == old(self)@ * bpow(n as nat),
    {
        let xn = self.limbs.len();
        let ghost old_limbs = self.limbs@;
        self.limbs.resize(xn + n, 0);
        let mut i = xn;
        while i > 0
            invariant
                i <= xn,
                xn + n <= usize::MAX,
                xn == old_limbs.len(),
                self.limbs@.len() == xn + n,
                forall|k: int| i + n <= k < xn + n ==> self.limbs@[k] == old_limbs[k - n],
                forall|k: int| 0 <= k < i + n ==> self.limbs@[k] == (if k < xn {
                    old_limbs[k]
                } else {
                    0u64
                }),
            decreases i,
        {
            i -= 1;
            let v = self.limbs[i];
            self.limbs.set(i + n, v);
        }
        let mut j: usize = 0;
        while j < n
            invariant
                j <= n,
                xn == old_limbs.len(),
                self.limbs@.len() == xn + n,
                forall|k: int| n <= k < xn + n ==> self.limbs@[k] == old_limbs[k - n],
                forall|k: int| 0 <= k < j ==> self.limbs@[k] == 0,
            decreases n - j,
        {
            self.limbs.set(j, 0);
            j += 1;
        }
        proof {
            let z = Seq::new(n as nat, |i: int| 0u64);
            assert(self.limbs@ =~= z + old_limbs);
            lemma_value_concat(z, old_limbs);
            lemma_value_zero(z);
            lemma_mul_is_commutative(bpow(n as nat) as int, limbs_value(old_limbs) as int);
        }
    }

    /// Drop the `n` least significant limbs: the quotient by `bpow(n)`.
    pub fn shift_down_limbs(&mut self, n: usize)
        ensures
            final(self).limbs@ == old(self).limbs@.skip(if n < old(self).limbs@.len() {
                n as int
            } else {
                old(self).limbs@.len() as int
            }),
            final(self)@ == old(self)@ / bpow(n as nat),
    {
        let ghost old_limbs = self.limbs@;
        proof {
            lemma_bpow_pos(n as nat);
            lemma_value_bound(old_limbs);
        }
        if n >= self.limbs.len() {
            self.limbs.clear();
            proof {
                assert(self.limbs@ =~= old_limbs.skip(old_limbs.len() as int));
                lemma_bpow_mono(old_limbs.len(), n as nat);
                lemma_basic_div(limbs_value(old_limbs) as int, bpow(n as nat) as int);
            }
            return;
        }
        let xn = self.limbs.len();
        let mut i = n;
        while i < xn
            invariant
                n <= i <= xn,
                xn == old_limbs.len(),
                self.limbs@.len() == xn,
                forall|k: int| 0 <= k < i - n ==> self.limbs@[k] == old_limbs[k + n],
                forall|k: int| i <= k < xn ==> self.limbs@[k] == old_limbs[k],
            decreases xn - i,
        {
            let v = self.limbs[i];
            self.limbs.set(i - n, v);
            i += 1;
        }
        self.limbs.resize(xn - n, 0);
        proof {
            assert(self.limbs@ =~= old_limbs.skip(n as int));
            lemma_value_split(old_limbs, n as int);
            lemma_value_bound(old_limbs.take(n as int));
            lemma_mul_is_commutative(bpow(n as nat) as int, limbs_value(old_limbs.skip(n as int)) as int);
            lemma_fundamental_div_mod_converse(
                limbs_value(old_limbs) as int,
                bpow(n as nat) as int,
                limbs_value(old_limbs.skip(n as int)) as int,
                limbs_value(old_limbs.take(n as int)) as int,
            );
        }
    }

    /// Drop most-significant zero limbs.
    pub(crate) fn trim_top_zeros(&mut self)
        ensures
            is_normalized(final(self).limbs@),
            final(self)@ == old(self)@,
            final(self).limbs@.len() == limb_len(old(self)@),
    {
        let mut n = self.limbs.len();
        proof {
            assert(self.limbs@.take(n as int) =~= self.limbs@);
        }
        while n > 0 && self.limbs[n - 1] == 0
            invariant
                n <= self.limbs@.len(),
                self.limbs@ == old(self).limbs@,
                limbs_value(self.limbs@.take(n as int)) == limbs_value(old(self).limbs@),
            decreases n,
        {
            proof {
                let t = self.limbs@.take(n as int);
                assert(t.drop_last() =~= self.limbs@.take(n - 1));
                lemma_value_drop_zero(t);
            }
            n -= 1;
        }
        if n != self.limbs.len() {
            self.limbs.resize(n, 0);
        }
        proof {
            assert(self.limbs@ =~= old(self).limbs@.take(n as int));
            lemma_normalized_len(self.limbs@);
        }
    }

    /// The quotient by `2^rhs`, `rhs < 64`, keeping the limb count; a shift
    /// by zero leaves the integer as it is.
    pub fn shr_assign(&mut self, rhs: usize)
        requires
            rhs < 64,
        ensures
            final(self).limbs@.len() == old(self).limbs@.len(),
            final(self)@ == old(self)@ / pow2(rhs as nat),
            rhs == 0 ==> final(self).limbs@ == old(self).limbs@,
    {
        if rhs == 0 {
            proof {
                lemma2_to64();
                vstd::arithmetic::div_mod::lemma_div_basics(self@ as int);
            }
            return;
        }
        let ghost o = self.limbs@;
        let xn = self.limbs.len();
        proof {
            lemma_u64_pow2_no_overflow(rhs as nat);
            lemma_u64_pow2_no_overflow((64 - rhs) as nat);
            lemma_u64_shl_is_mul(1, rhs as u64);
            lemma_u64_shl_is_mul(1, (64 - rhs) as u64);
            lemma_base_split(rhs as nat);
        }
        let p = 1u64 << rhs as u64;
        let c = 1u64 << (64 - rhs) as u64;
        let mut carry: u64 = 0;
        let mut i = xn;
        proof {
            assert(self.limbs@.skip(xn as int) =~= Seq::<u64>::empty());
            assert(o.skip(xn as int) =~= Seq::<u64>::empty());
            assert(limbs_value(o.skip(xn as int)) == 0);
            assert(limbs_value(self.limbs@.skip(xn as int)) == 0);
            lemma_div_of0(p as int);
        }
        while i > 0
            invariant
                i <= xn,
                xn == o.len(),
                self.limbs@.len() == xn,
                p == pow2(rhs as nat),
                c == pow2((64 - rhs) as nat),
                p * c == base(),
                0 < rhs < 64,
                forall|k: int| 0 <= k < i ==> self.limbs@[k] == o[k],
                carry == crate::limbs::digit(o, i as int) % (p as nat),
                limbs_value(self.limbs@.skip(i as int)) == limbs_value(o.skip(i as int)) / (p as nat),
            decreases i,
        {
            i -= 1;
            let x = self.limbs[i];
            proof {
                lemma_u64_shr_is_div(x, rhs as u64);
                lemma_mod_bound(carry as int, p as int);
                lemma_mul_inequality(carry as int, p - 1, c as int);
                lemma_mul_is_distributive_sub(c as int, p as int, 1int);
                lemma_mul_is_commutative(c as int, p - 1);
                lemma_mul_is_commutative(c as int, p as int);
                lemma_multiply_divide_lt(x as int, p as int, c as int);
                lemma_value_skip_step(o, i as int);
                lemma_mod_pow2_low_limb(o.skip(i + 1), rhs as nat);
                assert(crate::limbs::digit(o.skip(i + 1), 0) == crate::limbs::digit(o, i + 1));
                lemma_shr_limb(x as nat, crate::limbs::digit(o, i + 1), limbs_value(o.skip(i + 1)), rhs as nat);
            }
            let v = (x >> rhs as u64) + carry * c;
            let ghost before = self.limbs@;
            self.limbs.set(i, v);
            carry = x % p;
            proof {
                assert(self.limbs@.skip(i + 1) =~= before.skip(i + 1));
                lemma_value_skip_step(self.limbs@, i as int);
            }
        }
        proof {
            assert(self.limbs@.skip(0) =~= self.limbs@);
            assert(o.skip(0) =~= o);
        }
    }

    /// The product by one limb; the limb count grows by one exactly when the
    /// product needs it.
    pub fn mul_assign_u64(&mut self, rhs: Digit)
        ensures
            final(self)@ == old(self)@ * rhs,
            final(self).limbs@.len() == old(self).limbs@.len() + (if old(self)@ * rhs >= bpow(
                old(self).limbs@.len(),
            ) {
                1int
            } else {
                0int
            }),
    {
        let ghost o = self.limbs@;
        let xn = self.limbs.len();
        let mut carry: u128 = 0;
        let mut i: usize = 0;
        proof {
            assert(self.limbs@.take(0) =~= Seq::<u64>::empty());
            assert(o.take(0) =~= Seq::<u64>::empty());
            assert(limbs_value(o.take(0)) == 0);
            assert(limbs_value(self.limbs@.take(0)) == 0);
        }
        while i < xn
            invariant
                i <= xn,
                xn == o.len(),
                self.limbs@.len() == xn,
                carry < base(),
                self.limbs@.skip(i as int) == o.skip(i as int),
                limbs_value(self.limbs@.take(i as int)) + carry * bpow(i as nat) == limbs_value(
                    o.take(i as int),
                ) * rhs,
            decreases xn - i,
        {
            let x = self.limbs[i];
            proof {
                assert((x as int) * (rhs as int) + carry <= 0xffff_ffff_ffff_ffff * 0xffff_ffff_ffff_ffff
                    + 0xffff_ffff_ffff_ffff) by (nonlinear_arith)
                    requires
                        x <= 0xffff_ffff_ffff_ffff,
                        rhs <= 0xffff_ffff_ffff_ffff,
                        carry <= 0xffff_ffff_ffff_ffff,
                ;
            }
            let prod = (x as u128) * (rhs as u128) + carry;
            let ghost before = self.limbs@;
            self.limbs.set(i, prod as u64);
            proof {
                assert(before[i as int] == o[i as int]) by {
                    assert(before.skip(i as int)[0] == o.skip(i as int)[0]);
                }
                lemma_split_u128(prod);
                assert(self.limbs@.take(i + 1) =~= before.take(i as int).push(prod as u64));
                assert(self.limbs@.skip(i + 1) =~= o.skip(i + 1)) by {
                    assert forall|k: int| 0 <= k < self.limbs@.skip(i + 1).len() implies #[trigger] self.limbs@.skip(
                        i + 1,
                    )[k] == o.skip(i + 1)[k] by {
                        assert(before.skip(i as int)[k + 1] == o.skip(i as int)[k + 1]);
                    }
                }
                lemma_value_push(before.take(i as int), prod as u64);
                lemma_value_take_step(o, i as int);
                assert(bpow((i + 1) as nat) == base() * bpow(i as nat));
                lemma_carry_step(
                    limbs_value(before.take(i as int)) as int,
                    carry as int,
                    bpow(i as nat) as int,
                    prod as int,
                    (prod as u64) as int,
                    (prod >> 64u128) as int,
                    (limbs_value(o.take(i as int)) * rhs) as int,
                    x * rhs,
                );
                lemma_mul_is_commutative(bpow(i as nat) as int, (prod as u64) as int);
                assert((limbs_value(o.take(i as int)) + x * bpow(i as nat)) * rhs == limbs_value(
                    o.take(i as int),
                ) * rhs + (x * rhs) * bpow(i as nat)) by (nonlinear_arith);
                assert(prod >> 64u128 <= 0xffff_ffff_ffff_ffff) by (bit_vector);
            }
            carry = prod >> 64;
            i += 1;
        }
        proof {
            assert(self.limbs@.take(xn as int) =~= self.limbs@);
            assert(o.take(xn as int) =~= o);
            lemma_value_bound(self.limbs@);
            lemma_bpow_pos(xn as nat);
            if carry > 0 {
                lemma_mul_increases(carry as int, bpow(xn as nat) as int);
            }
        }
        if carry > 0 {
            proof {
                lemma_value_push(self.limbs@, carry as u64);
            }
            self.limbs.push(carry as u64);
        }
    }

    /// The sum; the limb count becomes that of the longer operand, plus one
    /// when the sum needs it.
    #[verifier::spinoff_prover]
    pub fn add_assign(&mut self, rhs: &Self)
        ensures
            final(self)@ == old(self)@ + rhs@,
            final(self).limbs@.len() == (if old(self).limbs@.len() >= rhs.limbs@.len() {
                old(self).limbs@.len()
            } else {
                rhs.limbs@.len()
            }) + (if old(self)@ + rhs@ >= bpow(
                if old(self).limbs@.len() >= rhs.limbs@.len() {
                    old(self).limbs@.len()
                } else {
                    rhs.limbs@.len()
                },
            ) {
                1int
            } else {
                0int
            }),
    {
        let ghost o = self.limbs@;
        let xn = self.limbs.len();
        let yn = rhs.limbs.len();
        if xn < yn {
            self.limbs.resize(yn, 0);
            proof {
                let z = Seq::new((yn - xn) as nat, |i: int| 0u64);
                assert(self.limbs@ =~= o + z);
                lemma_value_concat(o, z);
                lemma_value_zero(z);
            }
        }
        let len = self.limbs.len();
        let ghost e = self.limbs@;
        let mut carry: u128 = 0;
        let mut i: usize = 0;
        proof {
            assert(self.limbs@.take(0) =~= Seq::<u64>::empty());
            assert(e.take(0) =~= Seq::<u64>::empty());
            assert(limbs_value(e.take(0)) == 0);
            assert(limbs_value(self.limbs@.take(0)) == 0);
            assert(self.limbs@.skip(0) =~= e.skip(0));
        }
        while i < len
            invariant
                i <= len,
                len == e.len(),
                len >= yn,
                yn == rhs.limbs@.len(),
                limbs_value(e) == limbs_value(o),
                self.limbs@.len() == len,
                carry <= 1,
                self.limbs@.skip(i as int) == e.skip(i as int),
                limbs_value(self.limbs@.take(i as int)) + carry * bpow(i as nat) == limbs_value(
                    e.take(i as int),
                ) + prefix_value(rhs.limbs@, i as nat),
            decreases len - i,
        {
            let x = self.limbs[i];
            let y: u128 = if i < yn { rhs.limbs[i] as u128 } else { 0 };
            let s = x as u128 + y + carry;
            let ghost before = self.limbs@;
            self.limbs.set(i, s as u64);
            proof {
                lemma_set_step(before, self.limbs@, e, i as int, s as u64);
                lemma_value_take_step(e, i as int);
                lemma_split_u128(s);
                assert(y == digit(rhs.limbs@, i as int));
                assert(bpow((i + 1) as nat) == base() * bpow(i as nat));
                lemma_carry_step(
                    limbs_value(before.take(i as int)) as int,
                    carry as int,
                    bpow(i as nat) as int,
                    s as int,
                    (s as u64) as int,
                    (s >> 64u128) as int,
                    (limbs_value(e.take(i as int)) + prefix_value(rhs.limbs@, i as nat)) as int,
                    x + y,
                );
                lemma_mul_is_commutative(bpow(i as nat) as int, (s as u64) as int);
                lemma_mul_is_distributive_add(bpow(i as nat) as int, x as int, y as int);
                lemma_mul_is_commutative(bpow(i as nat) as int, x as int);
                lemma_mul_is_commutative(bpow(i as nat) as int, y as int);
                assert(s >> 64u128 <= 1) by (bit_vector)
                    requires
                        s <= 0x1_ffff_ffff_ffff_ffffu128,
                ;
            }
            carry = s >> 64;
            i += 1;
        }
        proof {
            assert(self.limbs@.take(len as int) =~= self.limbs@);
            assert(e.take(len as int) =~= e);
            lemma_prefix_value(rhs.limbs@, len as nat);
            lemma_value_bound(self.limbs@);
            lemma_bpow_pos(len as nat);
        }
        if carry != 0 {
            proof {
                lemma_value_push(self.limbs@, 1);
            }
            self.limbs.push(1);
        }
    }

    /// The difference within the limb count, `(v - rhs) mod bpow(len)`, where
    /// the subtrahend has no more limbs and another value (a zero difference
    /// leaves no nonzero top limb to stop at): the plain difference when it is
    /// not negative. Most-significant zero limbs of the result are dropped.
    #[verifier::spinoff_prover]
    pub fn sub_assign(&mut self, rhs: &Self)
        requires
            old(self).limbs@.len() >= rhs.limbs@.len(),
            old(self)@ != rhs@,
        ensures
            old(self)@ >= rhs@ ==> final(self)@ == old(self)@ - rhs@,
            old(self)@ < rhs@ ==> final(self)@ == old(self)@ + bpow(old(self).limbs@.len()) - rhs@,
            is_normalized(final(self).limbs@),
            final(self).limbs@.len() == limb_len(final(self)@),
    {
        let ghost o = self.limbs@;
        let len = self.limbs.len();
        let yn = rhs.limbs.len();
        let mut borrow: u64 = 0;
        let mut i: usize = 0;
        proof {
            assert(self.limbs@.take(0) =~= Seq::<u64>::empty());
            assert(o.take(0) =~= Seq::<u64>::empty());
            assert(limbs_value(o.take(0)) == 0);
            assert(limbs_value(self.limbs@.take(0)) == 0);
            assert(self.limbs@.skip(0) =~= o.skip(0));
        }
        while i < len
            invariant
                i <= len,
                len == o.len(),
                len >= yn,
                yn == rhs.limbs@.len(),
                self.limbs@.len() == len,
                borrow <= 1,
                self.limbs@.skip(i as int) == o.skip(i as int),
                limbs_value(self.limbs@.take(i as int)) + prefix_value(rhs.limbs@, i as nat)
                    == limbs_value(o.take(i as int)) + borrow * bpow(i as nat),
            decreases len - i,
        {
            let a = self.limbs[i] as u128;
            let b: u128 = if i < yn { rhs.limbs[i] as u128 } else { 0 };
            let bb = b + borrow as u128;
            let d: u64;
            let next: u64;
            if a >= bb {
                d = (a - bb) as u64;
                next = 0;
            } else {
                d = (a + 0x1_0000_0000_0000_0000u128 - bb) as u64;
                next = 1;
            }
            let ghost before = self.limbs@;
            self.limbs.set(i, d);
            proof {
                lemma_set_step(before, self.limbs@, o, i as int, d);
                lemma_value_take_step(o, i as int);
                assert(b == digit(rhs.limbs@, i as int));
                assert(bpow((i + 1) as nat) == base() * bpow(i as nat));
                lemma_borrow_step(
                    limbs_value(before.take(i as int)) as int,
                    prefix_value(rhs.limbs@, i as nat) as int,
                    limbs_value(o.take(i as int)) as int,
                    borrow as int,
                    bpow(i as nat) as int,
                    d as int,
                    a as int,
                    b as int,
                    next as int,
                );
                lemma_mul_is_commutative(bpow(i as nat) as int, d as int);
                lemma_mul_is_commutative(bpow(i as nat) as int, a as int);
                lemma_mul_is_commutative(bpow(i as nat) as int, b as int);
            }
            borrow = next;
            i += 1;
        }
        proof {
            assert(self.limbs@.take(len as int) =~= self.limbs@);
            assert(o.take(len as int) =~= o);
            lemma_prefix_value(rhs.limbs@, len as nat);
            lemma_value_bound(self.limbs@);
            lemma_value_bound(o);
            lemma_value_bound(rhs.limbs@);
            lemma_bpow_mono(yn as nat, len as nat);
            let sv = limbs_value(self.limbs@) as int;
            let ov = limbs_value(o) as int;
            let rv = rhs@ as int;
            let bl = bpow(len as nat) as int;
            assert(sv + rv == ov + borrow * bl);
            if borrow == 0 {
                assert(sv == ov - rv);
            } else {
                assert(sv == ov + bl - rv);
            }
            assert(ov >= rv ==> sv == ov - rv);
            assert(ov < rv ==> sv == ov + bl - rv);
        }
        self.trim_top_zeros();
    }

    /// The two's complement within the limb count, `(bpow(len) - v) mod
    /// bpow(len)`, with most-significant zero limbs dropped.
    #[verifier::spinoff_prover]
    pub fn negate(&mut self)
        ensures
            final(self)@ == (bpow(old(self).limbs@.len()) - old(self)@) % (bpow(old(self).limbs@.len()) as int),
            is_normalized(final(self).limbs@),
            final(self).limbs@.len() == limb_len(final(self)@),
    {
        let ghost o = self.limbs@;
        let len = self.limbs.len();
        let mut i: usize = 0;
        while i < len
            invariant
                i <= len,
                len == o.len(),
                self.limbs@.len() == len,
                forall|k: int| 0 <= k < i ==> self.limbs@[k] == 0xffff_ffff_ffff_ffff - o[k],
                forall|k: int| i <= k < len ==> self.limbs@[k] == o[k],
            decreases len - i,
        {
            let x = self.limbs[i];
            proof {
                assert(!x == 0xffff_ffff_ffff_ffff - x) by (bit_vector);
            }
            self.limbs.set(i, !x);
            i += 1;
        }
        proof {
            lemma_complement_value(o, self.limbs@);
            lemma_value_bound(o);
        }
        let ghost c = self.limbs@;
        // Add one, propagating the carry upward until it stops.
        let mut j: usize = 0;
        let mut carry = true;
        proof {
            assert(self.limbs@.take(0) =~= Seq::<u64>::empty());
            assert(c.take(0) =~= Seq::<u64>::empty());
            assert(limbs_value(c.take(0)) == 0);
            assert(limbs_value(self.limbs@.take(0)) == 0);
            assert(self.limbs@.skip(0) =~= c.skip(0));
            assert(bpow(0) == 1);
        }
        while j < len && carry
            invariant
                j <= len,
                len == c.len(),
                self.limbs@.len() == len,
                self.limbs@.skip(j as int) == c.skip(j as int),
                limbs_value(self.limbs@.take(j as int)) + (if carry { bpow(j as nat) } else { 0 })
                    == limbs_value(c.take(j as int)) + 1,
            decreases len - j,
        {
            let x = self.limbs[j];
            let s: u128 = x as u128 + 1;
            let ghost before = self.limbs@;
            self.limbs.set(j, s as u64);
            proof {
                lemma_set_step(before, self.limbs@, c, j as int, s as u64);
                lemma_value_take_step(c, j as int);
                lemma_split_u128(s);
                assert(bpow((j + 1) as nat) == base() * bpow(j as nat));
                lemma_carry_step(
                    limbs_value(before.take(j as int)) as int,
                    1,
                    bpow(j as nat) as int,
                    s as int,
                    (s as u64) as int,
                    (s >> 64u128) as int,
                    (limbs_value(c.take(j as int)) + 1) as int,
                    x as int,
                );
                lemma_mul_is_commutative(bpow(j as nat) as int, (s as u64) as int);
                lemma_mul_is_commutative(bpow(j as nat) as int, x as int);
                assert(s >> 64u128 <= 1) by (bit_vector)
                    requires
                        s <= 0x1_0000_0000_0000_0000u128,
                ;
                assert((s >> 64u128 == 1) == (x == 0xffff_ffff_ffff_ffff)) by (bit_vector)
                    requires
                        s == x as u128 + 1,
                ;
            }
            carry = x == 0xffff_ffff_ffff_ffff;
            proof {
                let h = (s >> 64u128) as int;
                let w2 = base() * bpow(j as nat);
                if carry {
                    assert(h == 1);
                    lemma_mul_basics(w2 as int);
                    assert(h * w2 == w2);
                } else {
                    assert(h == 0);
                    lemma_mul_basics(w2 as int);
                    assert(h * w2 == 0);
                }
                assert((if carry { bpow((j + 1) as nat) } else { 0 }) == h * w2);
            }
            j += 1;
        }
        proof {
            // The untouched top limbs add the same weight on both sides.
            lemma_value_split(self.limbs@, j as int);
            lemma_value_split(c, j as int);
            let bj = bpow(j as nat);
            let total = bpow(len as nat);
            if carry {
                // Every limb overflowed: the sum wrapped to zero.
                assert(j == len);
                assert(self.limbs@.take(len as int) =~= self.limbs@);
                assert(c.take(len as int) =~= c);
                lemma_value_bound(self.limbs@);
                assert(limbs_value(self.limbs@) == 0);
                assert(limbs_value(o) == 0);
                lemma_mod_self_0(total as int);
            } else {
                assert(limbs_value(self.limbs@) == limbs_value(c) + 1);
                lemma_value_bound(self.limbs@);
                lemma_small_mod((total - limbs_value(o)) as nat, total);
            }
        }
        self.trim_top_zeros();
    }
}

/// The schoolbook product of two limb vectors, in `xn + yn` limbs, less the
/// top one when it is zero.
#[verifier::spinoff_prover]
fn product_limbs(x: &Vec<Digit>, y: &Vec<Digit>) -> (z: Vec<Digit>)
    requires
        x@.len() + y@.len() <= usize::MAX,
        x@.len() + y@.len() > 0,
    ensures
        limbs_value(z@) == limbs_value(x@) * limbs_value(y@),
        z@.len() == (if limbs_value(x@) * limbs_value(y@) < bpow((x@.len() + y@.len() - 1) as nat) {
            x@.len() + y@.len() - 1
        } else {
            (x@.len() + y@.len()) as int
        }),
{
    let xn = x.len();
    let yn = y.len();
    let zn = xn + yn;
    let mut z = zeros(zn);
    let ghost yv = limbs_value(y@);
    let mut i: usize = 0;
    proof {
        assert(x@.take(0) =~= Seq::<u64>::empty());
        assert(limbs_value(x@.take(0)) == 0);
    }
    while i < xn
        invariant
            i <= xn,
            xn == x@.len(),
            yn == y@.len(),
            zn == xn + yn,
            zn <= usize::MAX,
            yv == limbs_value(y@),
            z@.len() == zn,
            forall|k: int| i + yn <= k < zn ==> z@[k] == 0,
            limbs_value(z@) == limbs_value(x@.take(i as int)) * yv,
        decreases xn - i,
    {
        let xi = x[i];
        let ghost xv = limbs_value(x@.take(i as int)) * yv;
        let ghost bi = bpow(i as nat);
        let mut carry: u128 = 0;
        let mut j: usize = 0;
        proof {
            assert(y@.take(0) =~= Seq::<u64>::empty());
            assert(limbs_value(y@.take(0)) == 0);
            assert(bpow((i + 0) as nat) == bi);
        }
        while j < yn
            invariant
                i < xn,
                j <= yn,
                xn == x@.len(),
                yn == y@.len(),
                zn == xn + yn,
                zn <= usize::MAX,
                xi == x@[i as int],
                bi == bpow(i as nat),
                z@.len() == zn,
                carry < base(),
                forall|k: int| i + yn <= k < zn ==> z@[k] == 0,
                limbs_value(z@) + carry * bpow((i + j) as nat) == xv + xi * limbs_value(
                    y@.take(j as int),
                ) * bi,
            decreases yn - j,
        {
            let k = i + j;
            let yj = y[j];
            proof {
                assert((xi as int) * (yj as int) <= 0xffff_ffff_ffff_fffe_0000_0000_0000_0001) by (nonlinear_arith)
                    requires
                        xi <= 0xffff_ffff_ffff_ffff,
                        yj <= 0xffff_ffff_ffff_ffff,
                ;
            }
            let prod = (yj as u128) * (xi as u128) + carry + z[k] as u128;
            let ghost vo = limbs_value(z@);
            let ghost ok = z@[k as int];
            proof {
                lemma_split_u128(prod);
                lemma_value_update(z@, k as int, prod as u64);
                lemma_value_take_step(y@, j as int);
                lemma_bpow_add(i as nat, j as nat);
                assert(bpow((k + 1) as nat) == base() * bpow(k as nat));
                lemma_mul_acc_step(
                    vo as int,
                    limbs_value(z@.update(k as int, prod as u64)) as int,
                    ok as int,
                    (prod as u64) as int,
                    carry as int,
                    (prod >> 64u128) as int,
                    bpow(k as nat) as int,
                    prod as int,
                    xi as int,
                    yj as int,
                    xv as int,
                    limbs_value(y@.take(j as int)) as int,
                    bi as int,
                    bpow(j as nat) as int,
                );
                assert(prod >> 64u128 <= 0xffff_ffff_ffff_ffff) by (bit_vector);
            }
            z.set(k, prod as u64);
            carry = prod >> 64;
            j += 1;
        }
        proof {
            assert(y@.take(yn as int) =~= y@);
            lemma_value_update(z@, (i + yn) as int, carry as u64);
            lemma_value_take_step(x@, i as int);
            assert(limbs_value(x@.take(i + 1)) * yv == xv + xi * yv * bi) by (nonlinear_arith)
                requires
                    limbs_value(x@.take(i + 1)) == limbs_value(x@.take(i as int)) + xi * bi,
                    xv == limbs_value(x@.take(i as int)) * yv,
            ;
        }
        z.set(i + yn, carry as u64);
        i += 1;
    }
    proof {
        assert(x@.take(xn as int) =~= x@);
        lemma_top_zero_iff(z@);
    }
    if z[zn - 1] == 0 {
        proof {
            assert(z@.drop_last() =~= z@.subrange(0, zn - 1));
            lemma_value_drop_zero(z@);
        }
        z.resize(zn - 1, 0);
    }
    z
}

impl Integer {
    /// The product; the limb count becomes the sum of both counts, less one
    /// when the top limb of the product is zero. At least one operand must
    /// have a limb.
    pub fn mul_assign(&mut self, rhs: &Self)
        requires
            old(self).limbs@.len() + rhs.limbs@.len() <= usize::MAX,
            old(self).limbs@.len() + rhs.limbs@.len() > 0,
        ensures
            final(self)@ == old(self)@ * rhs@,
            final(self).limbs@.len() == (if old(self)@ * rhs@ < bpow(
                (old(self).limbs@.len() + rhs.limbs@.len() - 1) as nat,
            ) {
                old(self).limbs@.len() + rhs.limbs@.len() - 1
            } else {
                (old(self).limbs@.len() + rhs.limbs@.len()) as int
            }),
    {
        let z = product_limbs(&self.limbs, &rhs.limbs);
        self.limbs = z;
    }

    /// The square, in twice the limb count, less one when the top limb of
    /// the square is zero. The integer must have a limb.
    pub fn square(&self) -> (r: Self)
        requires
            self.limbs@.len() > 0,
            2 * self.limbs@.len() <= usize::MAX,
        ensures
            r@ == self@ * self@,
            r.limbs@.len() == (if self@ * self@ < bpow((2 * self.limbs@.len() - 1) as nat) {
                2 * self.limbs@.len() - 1
            } else {
                (2 * self.limbs@.len()) as int
            }),
            is_normalized(self.limbs@) ==> is_normalized(r.limbs@),
    {
        let r = Integer { limbs: product_limbs(&self.limbs, &self.limbs) };
        proof {
            if is_normalized(self.limbs@) {
                lemma_square_normalized(self.limbs@, r.limbs@);
            }
        }
        r
    }
}

/// The square of a normalized limb vector, in the limb count `square` gives,
/// is normalized: its top limb is not zero.
proof fn lemma_square_normalized(x: Seq<u64>, r: Seq<u64>)
    requires
        x.len() > 0,
        is_normalized(x),
        limbs_value(r) == limbs_value(x) * limbs_value(x),
        r.len() == (if limbs_value(x) * limbs_value(x) < bpow((2 * x.len() - 1) as nat) {
            2 * x.len() - 1
        } else {
            (2 * x.len()) as int
        }),
    ensures
        is_normalized(r),
{
    let v = limbs_value(x);
    let l = x.len();
    lemma_normalized_len(x);
    lemma_limb_len(v);
    // bpow(l - 1) <= v < bpow(l), so bpow(2l - 2) <= v^2 < bpow(2l)
    lemma_bpow_add((l - 1) as nat, (l - 1) as nat);
    lemma_bpow_add(l as nat, l as nat);
    assert(bpow((l - 1) as nat) * bpow((l - 1) as nat) <= v * v) by (nonlinear_arith)
        requires
            bpow((l - 1) as nat) <= v,
    ;
    assert(v * v < bpow(l as nat) * bpow(l as nat)) by (nonlinear_arith)
        requires
            v < bpow(l as nat),
    ;
    assert((l - 1) + (l - 1) == 2 * l - 2);
    let k = limb_len(v * v);
    if v * v < bpow((2 * l - 1) as nat) {
        lemma_limb_len_unique(v * v, (2 * l - 1) as nat);
    } else {
        lemma_limb_len_unique(v * v, (2 * l) as nat);
    }
    lemma_limb_len(v * v);
    assert(v * v > 0);
    lemma_top_zero_iff(r);
}

/// Limb vectors of one length are equal when their values are.
pub proof fn lemma_limbs_determined(s: Seq<u64>, t: Seq<u64>)
    requires
        s.len() == t.len(),
        limbs_value(s) == limbs_value(t),
    ensures
        s == t,
    decreases s.len(),
{
    if s.len() > 0 {
        let b = base() as int;
        lemma_fundamental_div_mod_converse(
            limbs_value(s) as int,
            b,
            limbs_value(s.skip(1)) as int,
            s[0] as int,
        );
        lemma_fundamental_div_mod_converse(
            limbs_value(t) as int,
            b,
            limbs_value(t.skip(1)) as int,
            t[0] as int,
        );
        lemma_limbs_determined(s.skip(1), t.skip(1));
        assert forall|i: int| 0 <= i < s.len() implies s[i] == t[i] by {
            if i > 0 {
                assert(s[i] == s.skip(1)[i - 1]);
                assert(t[i] == t.skip(1)[i - 1]);
            }
        }
        assert(s =~= t);
    } else {
        assert(s =~= t);
    }
}

/// `square` and `mul_assign` of an integer by itself give the same limbs:
/// any two limb vectors that meet their contracts are equal.
pub proof fn lemma_square_matches_product(x: Seq<u64>, sq: Seq<u64>, prod: Seq<u64>)
    requires
        x.len() > 0,
        limbs_value(sq) == limbs_value(x) * limbs_value(x),
        sq.len() == (if limbs_value(x) * limbs_value(x) < bpow((2 * x.len() - 1) as nat) {
            2 * x.len() - 1
        } else {
            (2 * x.len()) as int
        }),
        limbs_value(prod) == limbs_value(x) * limbs_value(x),
        prod.len() == (if limbs_value(x) * limbs_value(x) < bpow((x.len() + x.len() - 1) as nat) {
            x.len() + x.len() - 1
        } else {
            (x.len() + x.len()) as int
        }),
    ensures
        sq == prod,
{
    assert(2 * x.len() == x.len() + x.len());
    lemma_limbs_determined(sq, prod);
}

/// The text of an integer lists every limb: a lone limb is its plain digits,
/// no limbs read as `0`, and a limb `x` put below the limbs `s` (at least
/// one) adds its group, at least `w` digits, after the text of `s`. So each
/// limb below the top one contributes its own group, lowest last.
pub proof fn lemma_integer_text_limbs(x: u64, s: Seq<u64>, r: nat, w: nat)
    ensures
        integer_text(Seq::<u64>::empty(), r, w) == digits(0, r),
        integer_text(seq![x], r, w) == digits(x as nat, r),
        s.len() > 0 ==> integer_text(seq![x] + s, r, w) == integer_text(s, r, w) + at_least(x as nat, r, w),
{
    let e = Seq::<u64>::empty();
    assert(e.take(0) =~= e);
    assert(limbs_text(e, r, w) == Seq::<char>::empty());
    assert(integer_text(e, r, w) =~= digits(0, r));
    let one = seq![x];
    assert(one.take(0) =~= e);
    assert(integer_text(one, r, w) =~= digits(x as nat, r));
    if s.len() > 0 {
        let t = seq![x] + s;
        assert(t.last() == s.last());
        let lower = t.take(t.len() - 1);
        assert(lower =~= seq![x] + s.take(s.len() - 1));
        assert(lower.skip(1) =~= s.take(s.len() - 1));
        assert(lower[0] == x);
        assert(limbs_text(lower, r, w) == limbs_text(lower.skip(1), r, w) + at_least(x as nat, r, w));
        if s.len() > 1 {
            assert(integer_text(s, r, w) == digits(s.last() as nat, r) + limbs_text(s.take(s.len() - 1), r, w));
        } else {
            assert(s.take(0) =~= e);
            assert(integer_text(s, r, w) =~= digits(s.last() as nat, r) + limbs_text(s.take(s.len() - 1), r, w));
        }
        assert(integer_text(t, r, w) =~= integer_text(s, r, w) + at_least(x as nat, r, w));
    }
}

/// Every group of the text is at least `w` digits long, so the text of
/// `len >= 1` limbs is at least `1 + w (len - 1)` characters.
pub proof fn lemma_integer_text_len(s: Seq<u64>, r: nat, w: nat)
    requires
        s.len() > 0,
        2 <= r,
    ensures
        integer_text(s, r, w).len() >= 1 + w * (s.len() - 1),
    decreases s.len(),
{
    if s.len() == 1 {
        assert(s =~= seq![s[0]]);
        lemma_integer_text_limbs(s[0], Seq::<u64>::empty(), r, w);
        assert(digits(s[0] as nat, r).len() >= 1);
    } else {
        let rest = s.skip(1);
        assert(s =~= seq![s[0]] + rest);
        lemma_integer_text_limbs(s[0], rest, r, w);
        lemma_integer_text_len(rest, r, w);
        let d = digits(s[0] as nat, r);
        if d.len() < w {
            assert(zero_chars((w - d.len()) as nat).len() == w - d.len());
        }
        assert(at_least(s[0] as nat, r, w).len() >= w);
        assert(w * (s.len() - 1) == w * (rest.len() - 1) + w) by (nonlinear_arith)
            requires
                rest.len() == s.len() - 1,
        ;
    }
}

/// Shifting limbs down by `k` undoes shifting them up by `k`, for every `k`
/// and every limb vector `s`, the empty one included: the limbs that
/// `shift_up_limbs(k)` leaves (`k` zero limbs, then `s`), less what
/// `shift_down_limbs(k)` drops from them, are `s` again.
pub proof fn lemma_shift_limbs_round_trip(s: Seq<u64>, k: nat)
    ensures
        ({
            let up = Seq::new(k, |i: int| 0u64) + s;
            up.skip(if k < up.len() { k as int } else { up.len() as int }) == s
        }),
{
    let up = Seq::new(k, |i: int| 0u64) + s;
    assert(up.skip(k as int) =~= s);
}


/// The text of limbs `s` as an integer in radix `r`: the top limb (zero when
/// there is none) in plain digits, then each lower limb, most significant
/// first, zero-padded to at least `w` digits.
pub open spec fn integer_text(s: Seq<u64>, r: nat, w: nat) -> Seq<char> {
    let lead: nat = if s.len() > 0 {
        s.last() as nat
    } else {
        0
    };
    let n: int = if s.len() > 1 {
        s.len() as int
    } else {
        1
    };
    digits(lead, r) + limbs_text(s.take(n - 1), r, w)
}

impl Integer {
    /// The integer text in radix `r` with lower limbs padded to `w` digits.
    pub(crate) fn format_limbs(&self, r: u64, w: usize) -> (s: String)
        requires
            2 <= r <= 16,
        ensures
            s@ == integer_text(self.limbs@, r as nat, w as nat),
    {
        let len = self.limbs.len();
        let lead = if len > 0 {
            self.limbs[len - 1]
        } else {
            0
        };
        let mut s = String::new();
        append_digits(&mut s, lead, r);
        let n = if len > 1 {
            len
        } else {
            1
        };
        append_limbs_text(&mut s, &self.limbs, n - 1, r, w);
        s
    }

    /// Decimal text: the top limb, then each lower limb as at least 19 digits.
    pub fn to_display_string(&self) -> (s: String)
        ensures
            s@ == integer_text(self.limbs@, 10, 19),
            self.limbs@.len() > 0 ==> s@.len() >= 1 + 19 * (self.limbs@.len() - 1),
    {
        proof {
            if self.limbs@.len() > 0 {
                lemma_integer_text_len(self.limbs@, 10, 19);
            }
        }
        self.format_limbs(10, 19)
    }

    /// Upper-case hexadecimal text: the top limb, then each lower limb as 16
    /// digits.
    pub fn to_upper_hex_string(&self) -> (s: String)
        ensures
            s@ == integer_text(self.limbs@, 16, 16),
            self.limbs@.len() > 0 ==> s@.len() >= 1 + 16 * (self.limbs@.len() - 1),
    {
        proof {
            if self.limbs@.len() > 0 {
                lemma_integer_text_len(self.limbs@, 16, 16);
            }
        }
        self.format_limbs(16, 16)
    }
}

impl From<u64> for Integer {
    fn from(value: u64) -> (r: Self)
        ensures
            r.limbs@ == seq![value],
            r@ == value,
    {
        Self::from_u64(value)
    }
}

impl vstd::std_specs::convert::FromSpecImpl<u64> for Integer {
    open spec fn obeys_from_spec() -> bool {
        false
    }

    open spec fn from_spec(v: u64) -> Self {
        arbitrary()
    }
}
} // verus!
