//! The Chudnovsky series for pi, evaluated by binary splitting, and the
//! fixed-point arithmetic that turns its sums into digits.
use vstd::prelude::*;
use vstd::arithmetic::mul::*;
use vstd::arithmetic::power2::*;
use vstd::arithmetic::power::pow;
use crate::bigint::Integer;
use crate::binary_fixed::{
    Fixed, bit_cap, pow10, pow10_below, divide_value, inv_sqrt_value, fixed_decimal, newton_steps,
};
use crate::limbs::{bit_len, lemma_bit_len_bounds, lemma_pow2_increases};
use crate::drm::{
    Drm3Term, DrmFormula, range_p, range_q, range_t_positive, range_t_negative, terms_valid,
    terms_bounded, lemma_range_positive, lemma_range_bounds, split,
};

verus! {

/// The Chudnovsky series: term `k` is
/// `(-1)^k (6k)! (A + B k) / ((3k)! (k!)^3 C^(3k))`, with `A = 13591409`,
/// `B = 545140134` and `C = 640320`.
#[derive(Debug, Clone, Copy)]
pub struct Chudnovsky;

/// `A` of the Chudnovsky series.
pub const CHUDNOVSKY_A: u64 = 13591409;

/// `B` of the Chudnovsky series.
pub const CHUDNOVSKY_B: u64 = 545140134;

/// `C` of the Chudnovsky series.
pub const CHUDNOVSKY_C: u64 = 640320;

/// `p(k) = (6k - 5)(2k - 1)(6k - 1)`, and `p(0) = 1`.
pub open spec fn chudnovsky_p(k: nat) -> nat {
    if k == 0 {
        1
    } else {
        ((6 * k - 5) * (2 * k - 1) * (6 * k - 1)) as nat
    }
}

/// `q(k) = k^3 C^3 / 24`, and `q(0) = 1`.
pub open spec fn chudnovsky_q(k: nat) -> nat {
    if k == 0 {
        1
    } else {
        (k * 640320) * (k * 640320) * (k * 26680)
    }
}

/// The magnitude of the numerator `t(k) = (-1)^k (A + B k) p(k)`.
pub open spec fn chudnovsky_t(k: nat) -> nat {
    (13591409 + 545140134 * k) * chudnovsky_p(k)
}

impl DrmFormula for Chudnovsky {
    open spec fn term_p(&self, k: nat) -> nat {
        chudnovsky_p(k)
    }

    open spec fn term_q(&self, k: nat) -> nat {
        chudnovsky_q(k)
    }

    open spec fn term_t_positive(&self, k: nat) -> nat {
        if k % 2 == 0 {
            chudnovsky_t(k)
        } else {
            0
        }
    }

    open spec fn term_t_negative(&self, k: nat) -> nat {
        if k % 2 == 1 {
            chudnovsky_t(k)
        } else {
            0
        }
    }

    open spec fn term_in_range(&self, k: nat) -> bool {
        k <= 33_838_536_044
    }

    fn term(&self, k: usize) -> (r: Drm3Term) {
        let k64 = k as u64;
        if k64 == 0 {
            return Drm3Term {
                p: Integer::one(),
                q: Integer::one(),
                t_positive: Integer::from_u64(CHUDNOVSKY_A),
                t_negative: Integer::zero(),
            };
        }
        proof {
            lemma2_to64();
            lemma2_to64_rest();
            lemma_pow2_adds(64, 64);
        }
        let kc = k64 * CHUDNOVSKY_C;
        let x0 = Integer::from_u64(kc);
        proof {
            x0.lemma_limb_count_below(64);
        }
        let x1 = x0.mul_u64(kc);
        proof {
            assert(x1@ < pow2(128)) by (nonlinear_arith)
                requires
                    x1@ == kc * kc,
                    kc < 0x1_0000_0000_0000_0000,
                    pow2(128) == 0x1_0000_0000_0000_0000 * 0x1_0000_0000_0000_0000,
            ;
            x1.lemma_limb_count_below(128);
        }
        let q = x1.mul_u64(kc / 24);
        let z0 = Integer::from_u64(6 * k64 - 1);
        proof {
            z0.lemma_limb_count_below(64);
        }
        let z1 = z0.mul_u64(2 * k64 - 1);
        proof {
            assert(z1@ < pow2(128)) by (nonlinear_arith)
                requires
                    z1@ == (6 * k64 - 1) * (2 * k64 - 1),
                    k64 <= 33_838_536_044,
                    k64 >= 1,
                    pow2(128) == 0x1_0000_0000_0000_0000 * 0x1_0000_0000_0000_0000,
            ;
            z1.lemma_limb_count_below(128);
        }
        let p = z1.mul_u64(6 * k64 - 5);
        proof {
            assert(p@ < pow2(128)) by (nonlinear_arith)
                requires
                    p@ == (6 * k64 - 1) * (2 * k64 - 1) * (6 * k64 - 5),
                    k64 <= 33_838_536_044,
                    k64 >= 1,
                    pow2(128) == 0x1_0000_0000_0000_0000 * 0x1_0000_0000_0000_0000,
            ;
            p.lemma_limb_count_below(128);
            assert(kc / 24 == k64 * 26680);
            assert(q@ == chudnovsky_q(k as nat));
            assert(p@ == chudnovsky_p(k as nat)) by (nonlinear_arith)
                requires
                    p@ == (6 * k64 - 1) * (2 * k64 - 1) * (6 * k64 - 5),
                    k64 >= 1,
                    chudnovsky_p(k as nat) == (6 * k64 - 5) * (2 * k64 - 1) * (6 * k64 - 1),
            ;
        }
        let t = p.mul_u64(CHUDNOVSKY_A + CHUDNOVSKY_B * k64);
        proof {
            lemma_mul_is_commutative(p@ as int, (CHUDNOVSKY_A + CHUDNOVSKY_B * k64) as int);
        }
        if k64 % 2 == 0 {
            Drm3Term { p, q, t_positive: t, t_negative: Integer::zero() }
        } else {
            Drm3Term { p, q, t_positive: Integer::zero(), t_negative: t }
        }
    }

    /// `ceil(digits / 14.181647462725477) + 1`, the decimal constant read
    /// exactly: about 14.18 digits per term.
    fn terms_for_digits(&self, digits: usize) -> (r: usize)
        ensures
            r == chudnovsky_terms(digits as nat),
            r >= 1,
            (r - 1) * 14_181_647_462_725_477 >= digits * 1_000_000_000_000_000,
            (r - 2) * 14_181_647_462_725_477 < digits * 1_000_000_000_000_000,
    {
        proof {
            lemma_chudnovsky_terms_cover(digits as nat);
        }
        let num = (digits as u128) * 1_000_000_000_000_000u128 + 14_181_647_462_725_476u128;
        let n = num / 14_181_647_462_725_477u128;
        proof {
            assert(n <= digits) by (nonlinear_arith)
                requires
                    n == num / 14_181_647_462_725_477,
                    num == digits * 1_000_000_000_000_000 + 14_181_647_462_725_476,
            {
                vstd::arithmetic::div_mod::lemma_div_is_ordered(
                    num as int,
                    (digits * 14_181_647_462_725_477 + 14_181_647_462_725_476) as int,
                    14_181_647_462_725_477,
                );
            }
        }
        (n as usize) + 1
    }
}

/// The number of Chudnovsky terms summed for `digits` digits:
/// `ceil(digits * 10^15 / 14181647462725477) + 1`.
pub open spec fn chudnovsky_terms(digits: nat) -> nat {
    (digits * 1_000_000_000_000_000 + 14_181_647_462_725_476) / 14_181_647_462_725_477 + 1
}

/// Each Chudnovsky term adds `14.181647462725477` decimal digits, and the
/// terms summed for `digits` digits are one more than the fewest that cover
/// them: with `n = chudnovsky_terms(digits)`,
/// `(n - 1) * 14.181647462725477 >= digits > (n - 2) * 14.181647462725477`.
pub proof fn lemma_chudnovsky_terms_cover(digits: nat)
    ensures
        chudnovsky_terms(digits) >= 1,
        (chudnovsky_terms(digits) - 1) * 14_181_647_462_725_477 >= digits * 1_000_000_000_000_000,
        (chudnovsky_terms(digits) - 2) * 14_181_647_462_725_477 < digits * 1_000_000_000_000_000,
{
    let k: int = 14_181_647_462_725_477;
    let num = (digits * 1_000_000_000_000_000 + 14_181_647_462_725_476) as int;
    let q = num / k;
    vstd::arithmetic::div_mod::lemma_fundamental_div_mod(num, k);
    vstd::arithmetic::div_mod::lemma_mod_bound(num, k);
    vstd::arithmetic::div_mod::lemma_div_pos_is_pos(num, k);
    assert(chudnovsky_terms(digits) == q + 1);
    assert(q * k == num - num % k) by (nonlinear_arith)
        requires
            num == k * q + num % k,
    ;
}

/// The Chudnovsky terms up to `33838536044` compute, have positive factors, and
/// stay below `2^192`.
pub proof fn lemma_chudnovsky_terms(a: nat, b: nat)
    requires
        b <= 33_838_536_044 + 1,
    ensures
        terms_valid(&Chudnovsky, a, b),
        terms_bounded(&Chudnovsky, a, b, 192),
{
    let f = Chudnovsky;
    lemma2_to64();
    lemma2_to64_rest();
    lemma_pow2_adds(64, 64);
    lemma_pow2_adds(128, 64);
    assert forall|k: nat| a <= k < b implies #[trigger] f.term_in_range(k) && f.term_p(k) >= 1
        && f.term_q(k) >= 1 by {
        lemma_chudnovsky_factors_positive(k);
    }
    assert(terms_valid(&Chudnovsky, a, b));
    let e = pow2(192) as int;
    assert(e == 0x1_0000_0000_0000_0000 * 0x1_0000_0000_0000_0000 * 0x1_0000_0000_0000_0000);
    assert forall|k: nat| a <= k < b implies {
        &&& #[trigger] f.term_p(k) < pow2(192)
        &&& f.term_q(k) < pow2(192)
        &&& f.term_t_positive(k) < pow2(192)
        &&& f.term_t_negative(k) < pow2(192)
    } by {
        lemma_chudnovsky_term_bounds(k);
        lemma2_to64_rest();
        lemma_pow2_adds(64, 64);
        lemma_pow2_adds(128, 64);
        assert(pow2(128) == 0x1_0000_0000_0000_0000 * 0x1_0000_0000_0000_0000);
        assert(pow2(192) == 0x1_0000_0000_0000_0000_0000_0000_0000_0000_0000_0000_0000_0000);
    }
}

/// The factors and the numerator of every Chudnovsky term are positive.
pub proof fn lemma_chudnovsky_factors_positive(k: nat)
    ensures
        chudnovsky_p(k) >= 1,
        chudnovsky_q(k) >= 1,
        chudnovsky_t(k) >= 1,
{
    if k > 0 {
        assert(chudnovsky_p(k) >= 1) by (nonlinear_arith)
            requires
                k >= 1,
                chudnovsky_p(k) == (6 * k - 5) * (2 * k - 1) * (6 * k - 1),
        ;
        assert(chudnovsky_q(k) >= 1) by (nonlinear_arith)
            requires
                k >= 1,
                chudnovsky_q(k) == (k * 640320) * (k * 640320) * (k * 26680),
        ;
    }
    assert(chudnovsky_t(k) >= 1) by (nonlinear_arith)
        requires
            chudnovsky_t(k) == (13591409 + 545140134 * k) * chudnovsky_p(k),
            chudnovsky_p(k) >= 1,
    ;
}

/// One Chudnovsky term up to `33838536044` (below `2^35`) has its factors
/// below `2^160` and its numerator below `2^192`.
proof fn lemma_chudnovsky_term_bounds(k: nat)
    requires
        k <= 33_838_536_044,
    ensures
        chudnovsky_p(k) < 0x1_0000_0000_0000_0000_0000_0000_0000_0000_0000_0000,
        chudnovsky_q(k) < 0x1_0000_0000_0000_0000_0000_0000_0000_0000_0000_0000,
        chudnovsky_t(k) < 0x1_0000_0000_0000_0000_0000_0000_0000_0000_0000_0000_0000_0000,
{
    if k > 0 {
        assert(chudnovsky_p(k) <= 72 * (k * k * k)) by (nonlinear_arith)
            requires
                k >= 1,
                chudnovsky_p(k) == (6 * k - 5) * (2 * k - 1) * (6 * k - 1),
        {
            assert((6 * k - 5) * (2 * k - 1) <= (6 * k) * (2 * k));
            assert((6 * k - 5) * (2 * k - 1) * (6 * k - 1) <= (6 * k) * (2 * k) * (6 * k));
        }
        assert(k * k * k < 0x200_0000_0000_0000_0000_0000_0000) by (nonlinear_arith)
            requires
                k < 0x8_0000_0000,
        {
            assert(k * k < 0x40_0000_0000_0000_0000);
        }
    }
    assert(chudnovsky_p(k) < 0x1_0000_0000_0000_0000_0000_0000_0000);
    assert(chudnovsky_q(k) < 0x1_0000_0000_0000_0000_0000_0000_0000_0000_0000_0000) by (nonlinear_arith)
        requires
            k < 0x8_0000_0000,
            chudnovsky_q(k) <= (k * 640320) * (k * 640320) * (k * 26680) || chudnovsky_q(k) == 1,
    {
        assert(k * 640320 < 0x80_0000_0000_0000);
        assert(k * 26680 < 0x4_0000_0000_0000);
        assert((k * 640320) * (k * 640320) < 0x4000_0000_0000_0000_0000_0000_0000);
    }
    assert(chudnovsky_t(k) < 0x1_0000_0000_0000_0000_0000_0000_0000_0000_0000_0000_0000_0000) by (nonlinear_arith)
        requires
            k <= 33_838_536_044,
            chudnovsky_p(k) < 0x1_0000_0000_0000_0000_0000_0000_0000,
            chudnovsky_t(k) == (13591409 + 545140134 * k) * chudnovsky_p(k),
    {
        assert(13591409 + 545140134 * k < 0x1_0000_0000_0000_0000);
    }
}

/// The signed sum `T(0, n)` of the Chudnovsky terms.
pub open spec fn chudnovsky_sum(n: nat) -> int {
    range_t_positive(&Chudnovsky, 0, n) - range_t_negative(&Chudnovsky, 0, n)
}

/// Each Chudnovsky term outweighs the next: `(A + B j) q(j + 1) > (A + B (j + 1)) p(j + 1)`.
proof fn lemma_chudnovsky_ratio(j: nat)
    ensures
        (13591409 + 545140134 * j) * chudnovsky_q(j + 1) > (13591409 + 545140134 * (j + 1))
            * chudnovsky_p(j + 1),
{
    let k = j + 1;
    let a = 13591409 + 545140134 * j;
    assert(chudnovsky_p(k) <= 72 * (k * k * k)) by (nonlinear_arith)
        requires
            k >= 1,
            chudnovsky_p(k) == (6 * k - 5) * (2 * k - 1) * (6 * k - 1),
    {
        assert((6 * k - 5) * (2 * k - 1) <= (6 * k) * (2 * k));
        assert((6 * k - 5) * (2 * k - 1) * (6 * k - 1) <= (6 * k) * (2 * k) * (6 * k));
    }
    assert(chudnovsky_q(k) == (k * k * k) * 10939058860032000) by (nonlinear_arith)
        requires
            chudnovsky_q(k) == (k * 640320) * (k * 640320) * (k * 26680),
    ;
    assert(13591409 + 545140134 * k <= 42 * a);
    assert(k * k * k >= 1) by (nonlinear_arith)
        requires
            k >= 1,
    ;
    assert((13591409 + 545140134 * k) * chudnovsky_p(k) <= (42 * a) * (72 * (k * k * k))) by (nonlinear_arith)
        requires
            13591409 + 545140134 * k <= 42 * a,
            chudnovsky_p(k) <= 72 * (k * k * k),
    ;
    assert((42 * a) * (72 * (k * k * k)) < a * ((k * k * k) * 10939058860032000)) by (nonlinear_arith)
        requires
            a >= 1,
            k * k * k >= 1,
    ;
}

/// The partial sums of the Chudnovsky series are positive: `T(0, n) > 0` for
/// `n >= 1` (and `T(0, n) >= 0` for even `n`).
pub proof fn lemma_chudnovsky_sum_positive(n: nat)
    requires
        n <= 33_838_536_045,
    ensures
        n % 2 == 0 ==> chudnovsky_sum(n) >= 0,
        n >= 1 ==> chudnovsky_sum(n) > 0,
    decreases n,
{
    let f = Chudnovsky;
    lemma_chudnovsky_terms(0, n);
    if n == 0 {
        assert(chudnovsky_sum(0) == 0);
    } else if n % 2 == 1 {
        let j = (n - 1) as nat;
        lemma_chudnovsky_sum_positive(j);
        lemma_chudnovsky_terms(0, j);
        lemma_range_positive(&f, 0, j);
        let q = chudnovsky_q(j) as int;
        let pp = range_p(&f, 0, j) as int;
        let t = chudnovsky_t(j) as int;
        lemma_chudnovsky_factors_positive(j);
        let tp0 = range_t_positive(&f, 0, j) as int;
        let tn0 = range_t_negative(&f, 0, j) as int;
        assert(f.term_t_positive(j) == chudnovsky_t(j));
        assert(f.term_t_negative(j) == 0);
        assert(range_t_positive(&f, 0, n) == tp0 * q + pp * t);
        assert(range_t_negative(&f, 0, n) == tn0 * q + pp * 0);
        lemma_mul_by_zero_is_zero(pp);
        assert(chudnovsky_sum(n) == chudnovsky_sum(j) * q + pp * t) by {
            lemma_mul_is_distributive_sub(q, tp0, tn0);
            lemma_mul_is_commutative(q, tp0);
            lemma_mul_is_commutative(q, tn0);
            lemma_mul_is_commutative(q, chudnovsky_sum(j));
        }
        assert(chudnovsky_sum(j) * q + pp * t > 0) by (nonlinear_arith)
            requires
                chudnovsky_sum(j) >= 0,
                q >= 1,
                pp >= 1,
                t >= 1,
        ;
    } else {
        let j = (n - 2) as nat;
        let j1 = (n - 1) as nat;
        lemma_chudnovsky_sum_positive(j);
        lemma_chudnovsky_terms(0, j);
        lemma_range_positive(&f, 0, j);
        let q0 = chudnovsky_q(j) as int;
        let q1 = chudnovsky_q(j1) as int;
        let p0 = chudnovsky_p(j) as int;
        let p1 = chudnovsky_p(j1) as int;
        let pp = range_p(&f, 0, j) as int;
        let a0 = 13591409 + 545140134 * j;
        let a1 = 13591409 + 545140134 * j1;
        let s0 = chudnovsky_sum(j);
        assert(j % 2 == 0);
        assert(f.term_t_positive(j) == a0 * p0);
        assert(f.term_t_negative(j) == 0);
        assert(f.term_t_positive(j1) == 0);
        assert(f.term_t_negative(j1) == a1 * p1);
        assert(range_p(&f, 0, j1) == range_p(&f, 0, j) * chudnovsky_p(j));
        let tp0 = range_t_positive(&f, 0, j) as int;
        let tn0 = range_t_negative(&f, 0, j) as int;
        let tp1 = range_t_positive(&f, 0, j1) as int;
        let tn1 = range_t_negative(&f, 0, j1) as int;
        assert(tp1 == tp0 * q0 + pp * (a0 * p0));
        assert(tn1 == tn0 * q0 + pp * 0);
        assert(range_t_positive(&f, 0, n) == tp1 * q1 + (pp * p0) * 0);
        assert(range_t_negative(&f, 0, n) == tn1 * q1 + (pp * p0) * (a1 * p1));
        lemma_chudnovsky_ratio(j);
        assert(a0 * q1 > a1 * p1);
        lemma_mul_by_zero_is_zero(pp * p0);
        lemma_mul_by_zero_is_zero(pp);
        assert(tp1 - tn1 == s0 * q0 + pp * (a0 * p0)) by {
            lemma_mul_is_distributive_sub(q0, tp0, tn0);
            lemma_mul_is_commutative(q0, tp0);
            lemma_mul_is_commutative(q0, tn0);
            lemma_mul_is_commutative(q0, s0);
        }
        assert(chudnovsky_sum(n) == (tp1 - tn1) * q1 - (pp * p0) * (a1 * p1)) by {
            lemma_mul_is_distributive_sub(q1, tp1, tn1);
            lemma_mul_is_commutative(q1, tp1);
            lemma_mul_is_commutative(q1, tn1);
            lemma_mul_is_commutative(q1, tp1 - tn1);
        }
        assert((s0 * q0 + pp * (a0 * p0)) * q1 == s0 * q0 * q1 + pp * p0 * (a0 * q1)) by (nonlinear_arith);
        assert((pp * p0) * (a1 * p1) == pp * p0 * (a1 * p1)) by (nonlinear_arith);
        assert(pp * p0 * (a0 * q1) - pp * p0 * (a1 * p1) == pp * p0 * (a0 * q1 - a1 * p1)) by (nonlinear_arith);
        assert(chudnovsky_sum(n) == s0 * q0 * q1 + pp * p0 * (a0 * q1 - a1 * p1));
        lemma_chudnovsky_factors_positive(j);
        lemma_chudnovsky_factors_positive(j1);
        assert(s0 * q0 * q1 + pp * p0 * (a0 * q1 - a1 * p1) > 0) by (nonlinear_arith)
            requires
                s0 >= 0,
                q0 >= 1,
                q1 >= 1,
                pp >= 1,
                p0 >= 1,
                a0 * q1 - a1 * p1 >= 1,
        ;
    }
}

/// The number of bits that hold `digits` decimal digits: the least `b` with
/// `10^digits <= 2^b`.
pub open spec fn decimal_bits(digits: nat) -> nat {
    bit_len((pow(10, digits) - 1) as nat)
}

/// `decimal_bits(digits)` is the least number of bits that hold `digits`
/// decimal digits: `2^(b - 1) < 10^digits <= 2^b`.
pub proof fn lemma_decimal_bits(digits: nat)
    ensures
        pow(10, digits) <= pow2(decimal_bits(digits)),
        digits > 0 ==> decimal_bits(digits) >= 1 && pow2((decimal_bits(digits) - 1) as nat) < pow(10, digits),
{
    vstd::arithmetic::power::lemma_pow_positive(10, digits);
    let m = (pow(10, digits) - 1) as nat;
    lemma_bit_len_bounds(m);
    if digits > 0 {
        vstd::arithmetic::power::lemma_pow0(10);
        vstd::arithmetic::power::lemma_pow_strictly_increases(10, 0, digits);
        assert(m > 0);
    }
}

/// The working precision of the Chudnovsky computation covers the digits
/// asked for and twelve guard digits, and no more than that needs:
/// with `p` the fraction bits of `chudnovsky_pi(digits)`,
/// `2^(p - 1) < 10^(digits + 12) <= 2^p`.
pub proof fn lemma_chudnovsky_precision(digits: nat)
    ensures
        pow(10, digits + 12) <= pow2(chudnovsky_pi(digits).1),
        pow2((chudnovsky_pi(digits).1 - 1) as nat) < pow(10, digits + 12),
{
    lemma_decimal_bits(digits + 12);
}

/// The number of bits that hold `digits` decimal digits: `ceil(digits *
/// log2(10))`, computed exactly as the bit length of `10^digits - 1`.
pub fn bits_for_decimal_digits(digits: usize) -> (r: usize)
    requires
        digits <= bit_cap(),
    ensures
        r == decimal_bits(digits as nat),
        pow(10, digits as nat) <= pow2(r as nat),
        digits > 0 ==> pow2((r - 1) as nat) < pow(10, digits as nat),
        r <= 4 * digits + 1,
{
    let p = pow10(digits);
    let one = Integer::one();
    proof {
        vstd::arithmetic::power::lemma_pow_positive(10, digits as nat);
        pow10_below(digits as nat);
    }
    let m = p.sub_ref(&one);
    proof {
        lemma_bit_len_bounds(m@);
        if bit_len(m@) > 4 * digits + 1 {
            lemma_pow2_increases((4 * digits + 1) as nat, (bit_len(m@) - 1) as nat);
        }
        if digits > 0 {
            vstd::arithmetic::power::lemma_pow_increases(10, 0, digits as nat);
            vstd::arithmetic::power::lemma_pow0(10);
            vstd::arithmetic::power::lemma_pow_strictly_increases(10, 0, digits as nat);
        }
    }
    m.bits()
}

/// The multiplier `426880` of the Chudnovsky formula:
/// `pi = 426880 sqrt(10005) Q / T`.
pub const CHUDNOVSKY_MULTIPLIER: u64 = 426880;

/// The digit counts the computation handles: every term index stays within
/// `Chudnovsky::term`'s `u64` arithmetic (at most `4 * 10^11` digits), and
/// every intermediate integer keeps its bit count within `usize::MAX / 8`
/// (at most `usize::MAX / 512` digits).
pub open spec fn digits_fit(digits: nat) -> bool {
    &&& digits <= usize::MAX / 512
    &&& digits <= 400_000_000_000
}

/// Whether `digits_fit(digits)`.
pub fn can_compute(digits: usize) -> (b: bool)
    ensures
        b == digits_fit(digits as nat),
{
    digits <= usize::MAX / 512 && (digits as u128) <= 400_000_000_000u128
}

/// A computation of a constant to a number of decimal digits.
pub trait Formula {
    /// The constant as a binary fixed-point number, for `digits` decimal digits.
    fn compute(&self, digits: usize) -> (r: Fixed)
        requires
            digits_fit(digits as nat),
    ;
}

/// A formula that needs the square root of an integer.
pub trait SquareRootFormula: Formula {
    /// The integer whose inverse square root the formula uses.
    fn inv_sqrt_u64(&self) -> u64;
}

impl SquareRootFormula for Chudnovsky {
    fn inv_sqrt_u64(&self) -> (r: u64)
        ensures
            r == 10005,
    {
        10005
    }
}

/// The fixed-point value `Formula::compute` gives for the Chudnovsky series:
/// `(1 / sqrt(10005)) * (426880 * 10005 * Q / T)` with `n` terms and `p`
/// fraction bits.
pub open spec fn chudnovsky_pi(digits: nat) -> (nat, nat) {
    let n = chudnovsky_terms(digits);
    let p = decimal_bits(digits + 12);
    let num = range_q(&Chudnovsky, 0, n) * 4270934400;
    let rec = divide_value(num, chudnovsky_sum(n) as nat, p);
    ((inv_sqrt_value(10005, p) * rec) / pow2(p), p)
}

/// The sizes in the Chudnovsky sum of `n` terms: every term computes, and the
/// factors and numerator parts stay below `2^(192 n)` and `2^(384 n)`.
proof fn lemma_run_bounds(n: nat)
    requires
        1 <= n <= 33_838_536_045,
    ensures
        terms_valid(&Chudnovsky, 0, n),
        range_p(&Chudnovsky, 0, n) <= pow2(192 * n),
        range_q(&Chudnovsky, 0, n) <= pow2(192 * n),
        range_t_positive(&Chudnovsky, 0, n) < pow2(384 * n),
        range_t_negative(&Chudnovsky, 0, n) < pow2(384 * n),
        chudnovsky_sum(n) > 0,
{
    lemma_chudnovsky_terms(0, n);
    lemma_range_bounds(&Chudnovsky, 0, n, 192);
    assert(192 * (n - 0) as nat == 192 * n);
    assert(2 * 192 * (n - 0) as nat == 384 * n);
    lemma_chudnovsky_sum_positive(n);
}

/// The sizes in the Chudnovsky computation for digit counts that fit: the
/// term count is within the term range, and `384 n + 8 digits + 200` bits fit
/// the capacity.
proof fn lemma_compute_bounds(digits: nat)
    requires
        digits_fit(digits),
    ensures
        1 <= chudnovsky_terms(digits) <= 33_838_536_045,
        384 * chudnovsky_terms(digits) + 8 * digits + 200 <= bit_cap(),
{
    let n = chudnovsky_terms(digits);
    let d = digits;
    let q = (d * 1_000_000_000_000_000 + 14_181_647_462_725_476) / 14_181_647_462_725_477;
    assert(n == q + 1);
    assert(14_181_647_462_725_477 * q <= d * 1_000_000_000_000_000 + 14_181_647_462_725_476) by (nonlinear_arith)
        requires
            q == (d * 1_000_000_000_000_000 + 14_181_647_462_725_476) / 14_181_647_462_725_477,
    {
        vstd::arithmetic::div_mod::lemma_fundamental_div_mod(
            (d * 1_000_000_000_000_000 + 14_181_647_462_725_476) as int,
            14_181_647_462_725_477,
        );
        vstd::arithmetic::div_mod::lemma_mod_bound(
            (d * 1_000_000_000_000_000 + 14_181_647_462_725_476) as int,
            14_181_647_462_725_477,
        );
    }
    assert(14 * q <= d + 15) by (nonlinear_arith)
        requires
            14_181_647_462_725_477 * q <= d * 1_000_000_000_000_000 + 14_181_647_462_725_476,
    {
        assert(14_000_000_000_000_000 * q <= 14_181_647_462_725_477 * q);
    }
    assert(usize::MAX >= 0xffff_ffff);
}

impl Chudnovsky {
    /// The numerator and denominator of the sum of `n` terms:
    /// `426880 * 10005 * Q(0, n)` and `T(0, n)`, the quotient that the
    /// Chudnovsky formula multiplies by `1 / sqrt(10005)`. At least one term,
    /// and few enough for the integers to fit.
    pub fn run(&self, n: usize) -> (r: (Integer, Integer))
        requires
            1 <= n <= 33_838_536_045,
            384 * n + 64 <= bit_cap(),
        ensures
            r.0.wf(),
            r.1.wf(),
            r.0@ == range_q(&Chudnovsky, 0, n as nat) * 4270934400,
            r.1@ == chudnovsky_sum(n as nat),
            r.0@ < pow2(192 * n as nat + 33),
            r.1@ < pow2(384 * n as nat),
            r.1@ >= 1,
    {
        let ghost f = Chudnovsky;
        let ghost nn = n as nat;
        proof {
            lemma_run_bounds(nn);
            lemma_pow2_strictly_increases(192 * nn, bit_cap());
            lemma_pow2_strictly_increases(384 * nn, bit_cap());
        }
        let split = split(self, 0, n);
        let sum = split.t_magnitude_when_positive();
        let sqrt_n = self.inv_sqrt_u64();
        let ghost q = split.q@;
        proof {
            split.q.lemma_limb_count_below(bit_cap());
            lemma_range_positive(&f, 0, nn);
        }
        let numerator = split.q.mul_u64(CHUDNOVSKY_MULTIPLIER * sqrt_n);
        proof {
            lemma2_to64();
            lemma_pow2_adds(192 * nn, 33);
            assert(pow2(33) == 0x2_0000_0000) by {
                lemma2_to64_rest();
            }
            assert(numerator@ < pow2(192 * nn + 33)) by (nonlinear_arith)
                requires
                    numerator@ == q * 4270934400,
                    q <= pow2(192 * nn),
                    q >= 1,
                    pow2(192 * nn + 33) == pow2(192 * nn) * 0x2_0000_0000,
            ;
        }
        (numerator, sum)
    }
}

/// How close the value `v / 2^p` is to the Chudnovsky quotient
/// `426880 sqrt(10005) Q / T = N / (sqrt(10005) T)` with `N = 4270934400 Q`:
/// on the square, `10005 (v T)^2 <= (4^p + S) N^2` from above and
/// `(4^p - S) M^2 <= 10005 (128 (v + 1) T)^2 4^p` from below when `M >= 0`, where
/// `S = 120060 * 2^p` and `M = 128 N 2^p - 128 T - N`.
pub open spec fn quotient_close(v: nat, p: nat, num: nat, den: nat) -> bool {
    let b2 = pow2(2 * p) as int;
    let ss = 120060 * (pow2(p) as int);
    let m = 128 * (num as int) * (pow2(p) as int) - 128 * (den as int) - num as int;
    let vt = (v as int) * (den as int);
    let wt = 128 * (v as int + 1) * (den as int);
    &&& 10005 * vt * vt <= (b2 + ss) * ((num as int) * (num as int))
    &&& m >= 0 ==> (b2 - ss) * (m * m) <= 10005 * (wt * wt) * b2
}

/// The truncated product of an accurate inverse square root of 10005 and an
/// accurate quotient `num / den` is close to `num / (sqrt(10005) den)`.
pub proof fn lemma_quotient_close(x: nat, r: nat, v: nat, p: nat, num: nat, den: nat)
    requires
        den >= 1,
        pow2(2 * p) <= 10005 * x * x + 120060 * pow2(p),
        10005 * x * x <= pow2(2 * p) + 120060 * pow2(p),
        r * den <= num * pow2(p),
        num * pow2(p) * 128 < den * (r + 1) * 128 + num,
        v == (x * r) / pow2(p),
    ensures
        quotient_close(v, p, num, den),
{
    let bb = pow2(p) as int;
    lemma_pow2_pos(p);
    lemma_pow2_adds(p, p);
    let b2 = bb * bb;
    assert(pow2(2 * p) as int == b2);
    let ss = 120060 * bb;
    let xi = x as int;
    let ri = r as int;
    let vi = v as int;
    let ni = num as int;
    let di = den as int;
    let xx = 10005 * xi * xi;
    assert(xx == (10005 * x * x) as int);
    vstd::arithmetic::div_mod::lemma_fundamental_div_mod(xi * ri, bb);
    vstd::arithmetic::div_mod::lemma_mod_bound(xi * ri, bb);
    assert(vi * bb <= xi * ri < (vi + 1) * bb) by (nonlinear_arith)
        requires
            xi * ri == bb * vi + (xi * ri) % bb,
            0 <= (xi * ri) % bb < bb,
    ;
    // from above
    let rt = ri * di;
    assert(0 <= rt <= ni * bb);
    assert(10005 * (vi * di) * (vi * di) * b2 <= xx * (rt * rt)) by (nonlinear_arith)
        requires
            0 <= vi * bb <= xi * ri,
            rt == ri * di,
            xx == 10005 * xi * xi,
            b2 == bb * bb,
            di >= 1,
    {
        assert((vi * bb) * (vi * bb) <= (xi * ri) * (xi * ri));
        assert((vi * di) * (vi * di) * b2 == (vi * bb) * (vi * bb) * (di * di));
        assert((xi * ri) * (xi * ri) * (di * di) == (xi * xi) * (rt * rt));
    }
    assert(xx * (rt * rt) <= (b2 + ss) * ((ni * bb) * (ni * bb))) by (nonlinear_arith)
        requires
            xx <= b2 + ss,
            0 <= rt <= ni * bb,
            xx >= 0,
    {
        assert(rt * rt <= (ni * bb) * (ni * bb));
    }
    assert(10005 * (vi * di) * (vi * di) <= (b2 + ss) * (ni * ni)) by (nonlinear_arith)
        requires
            10005 * (vi * di) * (vi * di) * b2 <= (b2 + ss) * ((ni * bb) * (ni * bb)),
            b2 == bb * bb,
            bb > 0,
    {
        assert((b2 + ss) * ((ni * bb) * (ni * bb)) == ((b2 + ss) * (ni * ni)) * b2);
    }
    // from below
    let m = 128 * ni * bb - 128 * di - ni;
    assert(128 * rt > m) by (nonlinear_arith)
        requires
            ni * bb * 128 < di * (ri + 1) * 128 + ni,
            rt == ri * di,
            m == 128 * ni * bb - 128 * di - ni,
    ;
    let wt = 128 * (vi + 1) * di;
    if m >= 0 {
        assert(wt * bb > xi * m) by (nonlinear_arith)
            requires
                xi * ri < (vi + 1) * bb,
                128 * rt > m,
                m >= 0,
                rt == ri * di,
                wt == 128 * (vi + 1) * di,
                xi >= 0,
                di >= 1,
        {
            assert(128 * (xi * ri) * di < 128 * ((vi + 1) * bb) * di);
            assert(xi * (128 * rt) >= xi * m);
        }
        assert((b2 - ss) * (m * m) <= 10005 * (wt * wt) * b2) by (nonlinear_arith)
            requires
                wt * bb > xi * m,
                xi * m >= 0,
                b2 - ss <= xx,
                xx == 10005 * xi * xi,
                b2 == bb * bb,
        {
            assert((wt * bb) * (wt * bb) >= (xi * m) * (xi * m));
            assert(10005 * (wt * wt) * b2 == 10005 * ((wt * bb) * (wt * bb)));
            assert(10005 * ((xi * m) * (xi * m)) == xx * (m * m));
            assert((b2 - ss) * (m * m) <= xx * (m * m));
        }
    }
}

impl Formula for Chudnovsky {
    fn compute(&self, digits: usize) -> (r: Fixed)
        ensures
            r.wf(),
            r@ == chudnovsky_pi(digits as nat),
            r@.0 < pow2(bit_cap()),
            pow(10, (digits + 12) as nat) <= pow2(r@.1),
            pow2((r@.1 - 1) as nat) < pow(10, (digits + 12) as nat),
            quotient_close(
                r@.0,
                r@.1,
                range_q(&Chudnovsky, 0, chudnovsky_terms(digits as nat)) * 4270934400,
                chudnovsky_sum(chudnovsky_terms(digits as nat)) as nat,
            ),
    {
        proof {
            lemma_compute_bounds(digits as nat);
            lemma2_to64();
            lemma_chudnovsky_precision(digits as nat);
        }
        let terms = self.terms_for_digits(digits);
        let ghost n = terms as nat;
        let precision_bits = bits_for_decimal_digits(digits + 12);
        let ghost p = precision_bits as nat;
        let (numerator, sum) = self.run(terms);
        let sqrt_n = self.inv_sqrt_u64();
        proof {
            lemma_pow2_strictly_increases(192 * n + 33, bit_cap());
            lemma_bit_len_bounds(sum@);
            if bit_len(sum@) > 384 * n {
                lemma_pow2_increases(384 * n, (bit_len(sum@) - 1) as nat);
            }
        }
        let reciprocal = Fixed::divide(numerator, sum, precision_bits);
        proof {
            // 10005 <= 10^5 <= 10^(digits + 12) <= 2^p
            vstd::arithmetic::power::lemma_pow_increases(10, 5, (digits + 12) as nat);
            assert(pow(10, 5) == 100000) by {
                reveal_with_fuel(pow, 6);
            }
            lemma_pow2_strictly_increases(p + 4, bit_cap());
            assert(10005 <= pow2(p));
            crate::newton::lemma_inv_sqrt_runs(10005, p, 2 + newton_steps(48, p + 8));
        }
        let inv = Fixed::inv_sqrt_u64(sqrt_n, precision_bits);
        proof {
            let x = inv@.0;
            lemma_pow2_pos(p);
            lemma_pow2_adds(p, p);
            lemma_pow2_adds(p, 1);
            let b = pow2(p) as int;
            let xi = x as int;
            assert(10005 * xi * xi <= 3 * (b * b));
            assert(xi < 2 * b) by (nonlinear_arith)
                requires
                    10005 * xi * xi <= 3 * (b * b),
                    xi >= 0,
                    b > 0,
            {
                if xi >= 2 * b {
                    assert(xi * xi >= (2 * b) * (2 * b));
                }
            }
            lemma_pow2_strictly_increases(p + 1, bit_cap());
            let rr = reciprocal@.0;
            lemma_pow2_adds(192 * n + 33, p);
            assert(rr < pow2(192 * n + 33 + p)) by (nonlinear_arith)
                requires
                    rr * sum@ <= numerator@ * pow2(p),
                    sum@ >= 1,
                    numerator@ < pow2(192 * n + 33),
                    pow2(192 * n + 33 + p) == pow2(192 * n + 33) * pow2(p),
                    pow2(p) > 0,
            {
                assert(rr <= rr * sum@);
                assert(numerator@ * pow2(p) < pow2(192 * n + 33) * pow2(p));
            }
            lemma_pow2_pos(p);
            lemma_pow2_strictly_increases(192 * n + 33 + p, bit_cap());
            // the product stays within capacity after the shift
            lemma_pow2_adds(p + 1, 192 * n + 33 + p);
            assert(x * rr < pow2(p + 1 + (192 * n + 33 + p))) by (nonlinear_arith)
                requires
                    x < pow2(p + 1),
                    rr < pow2(192 * n + 33 + p),
                    pow2(p + 1 + (192 * n + 33 + p)) == pow2(p + 1) * pow2(192 * n + 33 + p),
            ;
            vstd::arithmetic::div_mod::lemma_div_is_ordered_by_denominator(
                (x * rr) as int,
                1,
                pow2(p) as int,
            );
            lemma_pow2_strictly_increases(p + 1 + (192 * n + 33 + p), bit_cap());
            {
                vstd::arithmetic::power::lemma_pow_increases(10, 7, (digits + 12) as nat);
                assert(pow(10, 7) == 10000000) by {
                    reveal_with_fuel(pow, 8);
                }
                assert(256 * 10005 <= pow2(p));
                lemma_quotient_close(
                    x,
                    rr,
                    (x * rr) / pow2(p),
                    p,
                    numerator@,
                    sum@,
                );
            }
        }
        inv.mul(&reciprocal)
    }
}

/// `digits` decimal digits of pi, truncated: `3.` and the fraction digits.
pub fn compute_pi(digits: usize) -> (s: String)
    requires
        digits_fit(digits as nat),
    ensures
        s@ == fixed_decimal(chudnovsky_pi(digits as nat).0, chudnovsky_pi(digits as nat).1, digits as nat),
        pow(10, (digits + 12) as nat) <= pow2(chudnovsky_pi(digits as nat).1),
        (chudnovsky_terms(digits as nat) - 1) * 14_181_647_462_725_477 >= digits * 1_000_000_000_000_000,
        quotient_close(
            chudnovsky_pi(digits as nat).0,
            chudnovsky_pi(digits as nat).1,
            range_q(&Chudnovsky, 0, chudnovsky_terms(digits as nat)) * 4270934400,
            chudnovsky_sum(chudnovsky_terms(digits as nat)) as nat,
        ),
{
    let formula = Chudnovsky;
    proof {
        lemma_chudnovsky_terms_cover(digits as nat);
        lemma_chudnovsky_precision(digits as nat);
    }
    let value = formula.compute(digits);
    value.to_decimal(digits)
}

} // verus!
