//! Binary fixed-point numbers, `mantissa / 2^precision_bits`, with Newton
//! iterations for reciprocals and inverse square roots.
use vstd::prelude::*;
use vstd::arithmetic::mul::*;
use vstd::arithmetic::div_mod::*;
use vstd::arithmetic::power::pow;
use vstd::arithmetic::power2::*;
use vstd::string::{StringExecFns, StrSliceExecFns};
use crate::bigint::Integer;
use crate::digits::{digits, padded, zero_chars, lemma_padded_digits, lemma_digits_split};
use vstd::bits::{lemma_u64_shl_is_mul, lemma_u64_pow2_no_overflow};
use crate::isqrt::isqrt_u128;
use crate::reciprocal::lemma_reciprocal_accurate;
use crate::newton::{
    inv_sqrt_seed_value, inv_sqrt_iter, inv_sqrt_step, lemma_inv_sqrt_seed, inv_sqrt_runs,
    lemma_inv_sqrt_runs, lemma_inv_sqrt_runs_prefix, lemma_inv_sqrt_accurate,
};
use crate::limbs::{bit_len, lemma_bit_len_bounds, lemma_pow2_increases};

verus! {

/// The number of Newton steps that double a precision of `prec` bits until
/// it reaches `target`.
pub open spec fn newton_steps(prec: nat, target: nat) -> nat
    decreases if prec < target {
        target - prec
    } else {
        0
    },
{
    if prec == 0 || prec >= target {
        0
    } else {
        1 + newton_steps(2 * prec, target)
    }
}

proof fn lemma_newton_steps_bound(prec: nat, target: nat)
    requires
        prec >= 1,
    ensures
        newton_steps(prec, target) <= target,
        prec < target ==> newton_steps(prec, target) <= target - prec,
    decreases if prec < target {
        target - prec
    } else {
        0
    },
{
    if prec < target {
        lemma_newton_steps_bound(2 * prec, target);
    }
}

/// The bound on the binary length of operands under which the fixed-point
/// operations keep every limb and bit count within `usize`.
pub open spec fn bit_cap() -> nat {
    (usize::MAX as nat) / 8
}

/// The number of Newton iterations run for a result of `bits` bits: two,
/// plus one per doubling of a 48-bit start until it covers `bits + 8`.
pub fn newton_iterations(bits: usize) -> (r: usize)
    requires
        bits + 8 <= usize::MAX / 2,
    ensures
        r == 2 + newton_steps(48, (bits + 8) as nat),
{
    let mut precision = 48usize;
    let mut iterations = 2usize;
    while precision < bits + 8
        invariant
            bits + 8 <= usize::MAX / 2,
            precision >= 48,
            iterations + newton_steps(precision as nat, (bits + 8) as nat) == 2 + newton_steps(
                48,
                (bits + 8) as nat,
            ),
        decreases newton_steps(precision as nat, (bits + 8) as nat),
    {
        proof {
            lemma_newton_steps_bound(48, (bits + 8) as nat);
            lemma_newton_steps_bound(precision as nat, (bits + 8) as nat);
        }
        precision *= 2;
        iterations += 1;
    }
    iterations
}

/// `10^digits`.
pub fn pow10(digits: usize) -> (r: Integer)
    ensures
        r.wf(),
        r@ == pow(10, digits as nat),
{
    let mut value = Integer::one();
    let mut i: usize = 0;
    proof {
        vstd::arithmetic::power::lemma_pow0(10);
        lemma2_to64();
    }
    while i < digits
        invariant
            i <= digits,
            value.wf(),
            value@ == pow(10, i as nat),
            value@ < pow2((4 * i + 1) as nat),
        decreases digits - i,
    {
        proof {
            value.lemma_limb_count_below((4 * i + 1) as nat);
            vstd::arithmetic::power::lemma_pow_adds(10, i as nat, 1);
            vstd::arithmetic::power::lemma_pow1(10);
            lemma_pow2_adds((4 * i + 1) as nat, 4);
            lemma2_to64();
            assert(value@ * 10 < pow2((4 * i + 1) as nat) * pow2(4)) by (nonlinear_arith)
                requires
                    value@ < pow2((4 * i + 1) as nat),
                    pow2(4) == 16,
            ;
        }
        value = value.mul_u64(10);
        i += 1;
    }
    value
}

/// A binary fixed-point number: `value / 2^precision_bits`.
#[derive(Debug, Clone, PartialEq, Eq)]
pub struct Fixed {
    value: Integer,
    precision_bits: usize,
}

impl View for Fixed {
    type V = (nat, nat);

    /// The mantissa and the number of fraction bits.
    closed spec fn view(&self) -> (nat, nat) {
        (self.value@, self.precision_bits as nat)
    }
}

impl Fixed {
    pub closed spec fn wf(&self) -> bool {
        self.value.wf()
    }

    /// The integer `n` with `precision_bits` fraction bits.
    pub fn from_u64(n: u64, precision_bits: usize) -> (r: Self)
        ensures
            r.wf(),
            r@ == ((n * pow2(precision_bits as nat)) as nat, precision_bits as nat),
    {
        let v = Integer::from_u64(n);
        proof {
            v.lemma_limb_count();
            assert(v.limb_count() <= 1) by {
                lemma2_to64_rest();
                lemma_bit_len_bounds(n as nat);
                if bit_len(n as nat) > 64 {
                    lemma_pow2_increases(64, (bit_len(n as nat) - 1) as nat);
                }
            }
        }
        Fixed { value: v.shl_ref(precision_bits), precision_bits }
    }

    /// The product, kept at the precision of `self`.
    pub fn mul(&self, rhs: &Fixed) -> (r: Fixed)
        requires
            self.wf(),
            rhs.wf(),
            self@.0 < pow2(bit_cap()),
            rhs@.0 < pow2(bit_cap()),
        ensures
            r.wf(),
            r@ == ((self@.0 * rhs@.0) / pow2(rhs@.1), self@.1),
    {
        proof {
            self.value.lemma_limb_count_below(bit_cap());
            rhs.value.lemma_limb_count_below(bit_cap());
        }
        let p = self.value.mul_ref(&rhs.value);
        Fixed { value: p.shr_ref(rhs.precision_bits), precision_bits: self.precision_bits }
    }

    /// The product by an integer.
    pub fn mul_u64(&self, n: u64) -> (r: Fixed)
        requires
            self.wf(),
            self@.0 < pow2(bit_cap()),
        ensures
            r.wf(),
            r@ == ((self@.0 * n) as nat, self@.1),
    {
        proof {
            self.value.lemma_limb_count_below(bit_cap());
        }
        Fixed { value: self.value.mul_u64(n), precision_bits: self.precision_bits }
    }

    /// The difference of mantissas, at the precision of `self`.
    pub fn sub(&self, rhs: &Fixed) -> (r: Fixed)
        requires
            self.wf(),
            rhs.wf(),
            rhs@.0 <= self@.0,
        ensures
            r.wf(),
            r@ == ((self@.0 - rhs@.0) as nat, self@.1),
    {
        Fixed { value: self.value.sub_ref(&rhs.value), precision_bits: self.precision_bits }
    }

    /// Half, rounded down.
    pub fn shr1(&self) -> (r: Fixed)
        requires
            self.wf(),
        ensures
            r.wf(),
            r@ == (self@.0 / 2, self@.1),
    {
        proof {
            lemma2_to64();
        }
        Fixed { value: self.value.shr_ref(1), precision_bits: self.precision_bits }
    }

    /// The value truncated to `digits` decimal places: the integer part, then,
    /// for a positive count, a point and exactly `digits` fraction digits.
    pub fn to_decimal(&self, digits: usize) -> (s: String)
        requires
            self.wf(),
            self@.0 < pow2(bit_cap()),
            digits <= bit_cap(),
        ensures
            s@ == fixed_decimal(self@.0, self@.1, digits as nat),
    {
        let p = self.precision_bits;
        let q = self.value.shr_ref(p);
        let mut s = q.to_decimal_string();
        let ghost v = self@.0;
        proof {
            lemma_pow2_pos(p as nat);
            vstd::arithmetic::power::lemma_pow_positive(10, digits as nat);
            lemma_div_is_ordered_by_denominator(v as int, 1, pow2(p as nat) as int);
        }
        if digits == 0 {
            proof {
                vstd::arithmetic::power::lemma_pow0(10);
                let one = pow(10, 0);
                assert(v * one == v) by (nonlinear_arith)
                    requires
                        one == 1,
                ;
                assert((v * pow(10, 0)) / (pow2(p as nat) as int) == q@);
                assert(fixed_decimal(v, p as nat, 0) == crate::digits::digits(q@, 10));
            }
            return s;
        }
        proof {
            q.lemma_limb_count_below(bit_cap());
            lemma_fundamental_div_mod(v as int, pow2(p as nat) as int);
            lemma_mod_bound(v as int, pow2(p as nat) as int);
        }
        let hi = q.shl_ref(p);
        proof {
            lemma_mul_is_commutative(q@ as int, pow2(p as nat) as int);
        }
        let r = self.value.sub_ref(&hi);
        let scale10 = pow10(digits);
        proof {
            r.lemma_limb_count_below(bit_cap());
            pow10_below(digits as nat);
            scale10.lemma_limb_count_below((4 * digits + 1) as nat);
        }
        let frac = r.mul_ref(&scale10).shr_ref(p);
        let ghost t = pow(10, digits as nat) as nat;
        proof {
            fixed_split(v, p as nat, t);
        }
        proof {
            reveal_strlit(".");
        }
        s.append(".");
        let f = frac.to_decimal_string();
        let fl = f.as_str().unicode_len();
        proof {
            lemma_padded_digits(frac@, 10, digits as nat);
        }
        let mut k = fl;
        let ghost s0 = s@;
        while k < digits
            invariant
                fl <= k <= digits,
                s@ == s0 + zero_chars((k - fl) as nat),
            decreases digits - k,
        {
            proof {
                reveal_strlit("0");
            }
            s.append("0");
            k += 1;
            proof {
                assert(s@ =~= s0 + zero_chars((k - fl) as nat));
            }
        }
        s.append(f.as_str());
        proof {
            assert(s@ =~= crate::digits::digits(q@, 10) + seq!['.'] + padded(frac@, 10, digits as nat));
        }
        s
    }
}

/// `10^d` stays below `2^(4d + 1)`.
pub proof fn pow10_below(d: nat)
    ensures
        pow(10, d) < pow2(4 * d + 1),
    decreases d,
{
    reveal(pow);
    lemma2_to64();
    if d > 0 {
        pow10_below((d - 1) as nat);
        lemma_pow2_adds((4 * (d - 1) + 1) as nat, 4);
        assert(4 * (d - 1) + 1 + 4 == 4 * d + 1);
        assert(pow(10, d) == 10 * pow(10, (d - 1) as nat));
        assert(10 * pow(10, (d - 1) as nat) < pow2((4 * (d - 1) + 1) as nat) * 16) by (nonlinear_arith)
            requires
                pow(10, (d - 1) as nat) < pow2((4 * (d - 1) + 1) as nat),
        ;
    }
}

/// Scaling by `t` and truncating `v / 2^p` splits into the integer part
/// times `t` and the truncated scaled fraction, which stays below `t`.
proof fn fixed_split(v: nat, p: nat, t: nat)
    requires
        t > 0,
    ensures
        ((v % pow2(p)) * t) / pow2(p) < t,
        (v * t) / pow2(p) == (v / pow2(p)) * t + ((v % pow2(p)) * t) / pow2(p),
        ((v * t) / pow2(p)) / t == v / pow2(p),
        ((v * t) / pow2(p)) % t == ((v % pow2(p)) * t) / pow2(p),
{
    let d = pow2(p) as int;
    lemma_pow2_pos(p);
    let q = (v / pow2(p)) as int;
    let r = (v % pow2(p)) as int;
    lemma_fundamental_div_mod(v as int, d);
    lemma_mod_bound(v as int, d);
    assert(r * t < d * t) by (nonlinear_arith)
        requires
            r < d,
            t > 0,
    ;
    lemma_multiply_divide_lt(r * t, d, t as int);
    assert(v * t == d * (q * t) + r * t) by (nonlinear_arith)
        requires
            v == d * q + r,
    ;
    lemma_div_pos_is_pos(r * t, d);
    crate::limbs::lemma_div_add_multiple(r * t, d, q * t);
    lemma_fundamental_div_mod_converse(
        (q * t + (r * t) / d) as int,
        t as int,
        q,
        (r * t) / d,
    );
}

/// The decimal rendering of `v / 2^p` truncated to `d` places.
pub open spec fn fixed_decimal(v: nat, p: nat, d: nat) -> Seq<char> {
    let n = (v * pow(10, d)) / (pow2(p) as int);
    if d == 0 {
        digits(n as nat, 10)
    } else {
        digits((n / pow(10, d)) as nat, 10) + seq!['.'] + padded((n % pow(10, d)) as nat, 10, d)
    }
}

/// The decimal text of `v / 2^p` (at least 1) with `d > 0` places is the
/// decimal digits of `floor(v 10^d / 2^p)` with a point put before the last
/// `d` of them: exactly `d` digits follow the point.
pub proof fn lemma_fixed_decimal_reads(v: nat, p: nat, d: nat)
    requires
        d > 0,
        v >= pow2(p),
    ensures
        ({
            let t = fixed_decimal(v, p, d);
            let n = ((v * pow(10, d)) / (pow2(p) as int)) as nat;
            &&& t.len() >= d + 2
            &&& t[t.len() - d - 1] == '.'
            &&& t.remove(t.len() - d - 1) == digits(n, 10)
        }),
{
    let pd = pow(10, d);
    vstd::arithmetic::power::lemma_pow_positive(10, d);
    lemma_pow2_pos(p);
    let pp = pow2(p) as int;
    let n = (v * pd) / pp;
    assert(v * pd >= pp * pd) by (nonlinear_arith)
        requires
            v >= pp,
            pd > 0,
    ;
    lemma_div_is_ordered(pp * pd, v * pd, pp);
    assert((pp * pd) / pp == pd) by {
        lemma_div_multiples_vanish(pd, pp);
    }
    assert(n >= pd);
    let q = n / pd;
    let b = n % pd;
    lemma_fundamental_div_mod(n, pd);
    lemma_mod_bound(n, pd);
    lemma_div_is_ordered(pd, n, pd);
    lemma_div_by_self(pd);
    assert(q >= 1);
    lemma_padded_digits(b as nat, 10, d);
    let dq = digits(q as nat, 10);
    let pb = padded(b as nat, 10, d);
    assert(pb.len() == d);
    let t = fixed_decimal(v, p, d);
    assert(t == dq + seq!['.'] + pb);
    assert(t.len() == dq.len() + 1 + d);
    assert(dq.len() >= 1);
    assert(t[t.len() - d - 1] == '.');
    assert(t.remove(t.len() - d - 1) =~= dq + pb);
    lemma_digits_split(q as nat, b as nat, 10, d);
    assert(n == q * pd + b) by {
        lemma_mul_is_commutative(q, pd);
    }
}

/// The leading bits of `d` that seed a reciprocal: at most 53 of them.
pub open spec fn seed_top_bits(d: nat) -> nat {
    if bit_len(d) < 53 {
        bit_len(d)
    } else {
        53
    }
}

/// The number formed by the leading `seed_top_bits(d)` bits of `d`.
pub open spec fn seed_top(d: nat) -> nat {
    d / pow2((bit_len(d) - seed_top_bits(d)) as nat)
}

/// The first approximation of `2^s / d`: a power of two divided by the
/// leading bits of `d`.
pub open spec fn reciprocal_seed_value(d: nat, s: nat) -> nat {
    pow2((s + seed_top_bits(d) - bit_len(d)) as nat) / seed_top(d)
}

/// One Newton step towards `2^s / d`: `x (2^(s+1) - d x) / 2^s`, rounded down,
/// and moved up to one when it reaches zero.
pub open spec fn reciprocal_step(d: nat, s: nat, x: nat) -> nat {
    let y = (x * ((pow2(s + 1) - d * x) as nat)) / pow2(s);
    if y == 0 {
        1
    } else {
        y
    }
}

/// `k` Newton steps from `x`.
pub open spec fn reciprocal_iter(d: nat, s: nat, x: nat, k: nat) -> nat
    decreases k,
{
    if k == 0 {
        x
    } else {
        reciprocal_step(d, s, reciprocal_iter(d, s, x, (k - 1) as nat))
    }
}

/// The seed undershoots twice the reciprocal: `d * seed < 2^(s + 1)`.
pub proof fn lemma_seed_bound(d: nat, s: nat)
    requires
        d > 0,
        bit_len(d) <= s,
    ensures
        seed_top(d) >= 1,
        d * reciprocal_seed_value(d, s) < pow2(s + 1),
{
    let b = bit_len(d);
    let tb = seed_top_bits(d);
    let k = (b - tb) as nat;
    let top = seed_top(d);
    let e = (s - k) as nat;
    lemma_bit_len_bounds(d);
    lemma_pow2_pos(k);
    lemma_pow2_pos(e);
    lemma_pow2_adds(k, (tb - 1) as nat);
    // 2^(b-1) <= d, so top = d / 2^k >= 2^(tb - 1) >= 1
    assert(pow2(k) * pow2((tb - 1) as nat) <= d);
    lemma_div_by_multiple_is_strongly_ordered_or_le(d, k, (tb - 1) as nat);
    lemma_pow2_pos((tb - 1) as nat);
    assert(top >= 1);
    let x = pow2(e) / top;
    lemma_fundamental_div_mod(d as int, pow2(k) as int);
    lemma_mod_bound(d as int, pow2(k) as int);
    lemma_fundamental_div_mod(pow2(e) as int, top as int);
    lemma_mod_bound(pow2(e) as int, top as int);
    lemma_pow2_adds(k, e);
    lemma_pow2_adds(s, 1);
    lemma2_to64();
    assert(k + e == s);
    let pk = pow2(k) as int;
    let pe = pow2(e) as int;
    let ps = pow2(s) as int;
    let di = d as int;
    let ti = top as int;
    let xi = x as int;
    let rd = di % pk;
    let re = pe % ti;
    assert(di < pk * (ti + 1)) by (nonlinear_arith)
        requires
            di == pk * ti + rd,
            rd < pk,
    ;
    assert(xi <= ti * xi) by (nonlinear_arith)
        requires
            ti >= 1,
            xi >= 0,
    ;
    assert(pk * (ti + 1) * xi == pk * (ti * xi) + pk * xi) by (nonlinear_arith);
    assert(pk * (ti * xi) <= pk * pe) by (nonlinear_arith)
        requires
            ti * xi <= pe,
            pk > 0,
    ;
    assert(pk * xi <= pk * pe) by (nonlinear_arith)
        requires
            xi <= pe,
            pk > 0,
    ;
    lemma_pow2_pos(s);
    assert(ps == pk * pe);
    if xi == 0 {
        assert(di * xi == 0) by (nonlinear_arith)
            requires
                xi == 0,
        ;
    } else {
        assert(di * xi < pk * (ti + 1) * xi) by (nonlinear_arith)
            requires
                di < pk * (ti + 1),
                xi > 0,
        ;
    }
    assert(di * xi < 2 * ps);
}

/// `2^(k + j) <= d` gives `2^j <= d / 2^k`.
pub proof fn lemma_div_by_multiple_is_strongly_ordered_or_le(d: nat, k: nat, j: nat)
    requires
        pow2(k) * pow2(j) <= d,
    ensures
        pow2(j) <= d / pow2(k),
{
    lemma_pow2_pos(k);
    lemma_div_is_ordered((pow2(k) * pow2(j)) as int, d as int, pow2(k) as int);
    lemma_div_multiples_vanish(pow2(j) as int, pow2(k) as int);
}

/// A Newton step keeps the product with `d` at most `2^s`, given it was at
/// most `2^(s+1)`.
pub proof fn lemma_reciprocal_step_bound(d: nat, s: nat, x: nat)
    requires
        d <= pow2(s),
        d * x <= pow2(s + 1),
    ensures
        d * reciprocal_step(d, s, x) <= pow2(s),
        reciprocal_step(d, s, x) >= 1,
{
    let bb = pow2(s) as int;
    lemma_pow2_pos(s);
    lemma_pow2_adds(s, 1);
    lemma2_to64();
    let t = (d * x) as int;
    let c = (pow2(s + 1) - d * x) as int;
    let y = (x * (c as nat)) / pow2(s);
    assert(c == 2 * bb - t);
    lemma_fundamental_div_mod((x * c) as int, bb);
    lemma_mod_bound((x * c) as int, bb);
    assert(d * y <= bb) by (nonlinear_arith)
        requires
            x * c == bb * y + (x * c) % bb,
            (x * c) % bb >= 0,
            t == d * x,
            c == 2 * bb - t,
            bb > 0,
            y >= 0,
            d >= 0,
            c >= 0,
    {
        assert(bb * (d * y) <= d * (x * c));
        assert(d * (x * c) == t * c);
        assert(t * (2 * bb - t) <= bb * bb) by {
            assert((t - bb) * (t - bb) >= 0);
        }
        assert(bb * (d * y) <= bb * bb);
    }
    if y == 0 {
        assert(d * 1 <= bb);
    }
}

/// The first approximation of `2^scale_bits / d`: the power of two divided
/// by the (at most 53) leading bits of `d`.
pub fn reciprocal_seed(d: &Integer, scale_bits: usize) -> (r: Integer)
    requires
        d.wf(),
        d@ > 0,
        bit_len(d@) <= scale_bits + seed_top_bits(d@),
        scale_bits <= bit_cap(),
    ensures
        r.wf(),
        r@ == reciprocal_seed_value(d@, scale_bits as nat),
        bit_len(d@) <= scale_bits ==> d@ * r@ < pow2(scale_bits as nat + 1),
        pow2(scale_bits as nat) / d@ <= r@,
        bit_len(d@) <= 53 ==> r@ == pow2(scale_bits as nat) / d@,
        d@ * r@ * pow2(52) <= pow2(scale_bits as nat) * (pow2(52) + 1),
{
    let bits = d.bits();
    let top_bits = if bits < 53 { bits } else { 53 };
    let top = d.top_bits_u64(top_bits);
    let numerator_shift = scale_bits + top_bits - bits;
    proof {
        if bit_len(d@) <= scale_bits {
            lemma_seed_bound(d@, scale_bits as nat);
        }
        crate::reciprocal::lemma_seed_floor(d@, scale_bits as nat);
        lemma_pow2_pos(0);
        lemma2_to64();
        assert(top == seed_top(d@)) by {
            if bit_len(d@) <= top_bits {
                assert(bit_len(d@) - seed_top_bits(d@) == 0);
                assert(d@ / 1 == d@);
            }
        }
    }
    if numerator_shift < 63 {
        proof {
            lemma_u64_pow2_no_overflow(numerator_shift as nat);
            lemma_u64_shl_is_mul(1, numerator_shift as u64);
            lemma_div_is_ordered_by_denominator(pow2(numerator_shift as nat) as int, 1, top as int);
            lemma_pow2_increases(numerator_shift as nat, 63);
        }
        let num = 1u64 << numerator_shift as u64;
        Integer::from_u64(num / top)
    } else {
        let one = Integer::one();
        proof {
            lemma2_to64();
            one.lemma_limb_count_below(1);
        }
        let p = one.shl_ref(numerator_shift);
        p.div_u64(top)
    }
}

/// Newton's iteration for `2^scale_bits / d` from `reciprocal_seed`: the
/// result never overshoots, `d * r <= 2^scale_bits`, and when `d` has at
/// least three bits fewer than `scale_bits` it falls short by at most two.
pub fn reciprocal_newton(d: &Integer, scale_bits: usize) -> (r: Integer)
    requires
        d.wf(),
        d@ > 0,
        bit_len(d@) <= scale_bits,
        scale_bits <= bit_cap(),
    ensures
        r.wf(),
        r@ == reciprocal_iter(
            d@,
            scale_bits as nat,
            reciprocal_seed_value(d@, scale_bits as nat),
            2 + newton_steps(48, scale_bits as nat + 8),
        ),
        d@ * r@ <= pow2(scale_bits as nat),
        r@ >= 1,
        bit_len(d@) + 3 <= scale_bits ==> pow2(scale_bits as nat) <= d@ * r@ + 2 * d@,
{
    let mut x = reciprocal_seed(d, scale_bits);
    let one = Integer::one();
    proof {
        lemma2_to64();
        one.lemma_limb_count_below(1);
    }
    let two_b = one.shl_ref(scale_bits + 1);
    let n = newton_iterations(scale_bits);
    let ghost s = scale_bits as nat;
    let ghost seed = x@;
    proof {
        lemma_bit_len_bounds(d@);
        lemma_pow2_increases(bit_len(d@), s);
        lemma_pow2_adds(s, 1);
        lemma2_to64();
    }
    let mut i: usize = 0;
    while i < n
        invariant
            i <= n,
            n == 2 + newton_steps(48, s + 8),
            d.wf(),
            x.wf(),
            two_b.wf(),
            two_b@ == pow2(s + 1),
            s == scale_bits,
            s <= bit_cap(),
            d@ > 0,
            d@ < pow2(s),
            x@ == reciprocal_iter(d@, s, seed, i as nat),
            d@ * x@ <= pow2(s + 1),
            i > 0 ==> d@ * x@ <= pow2(s),
            i > 0 ==> x@ >= 1,
            pow2(s + 1) == pow2(s) * 2,
        decreases n - i,
    {
        proof {
            lemma_pow2_adds(s, 2);
            lemma2_to64();
            lemma_pow2_increases(s, s + 2);
            d.lemma_limb_count_below(s + 2);
            if x@ > 0 {
                assert(x@ <= d@ * x@) by (nonlinear_arith)
                    requires
                        d@ >= 1,
                ;
            }
            assert(pow2(s + 2) == pow2(s) * 4);
            assert(x@ < pow2(s + 2));
            x.lemma_limb_count_below(s + 2);
        }
        let dx = d.mul_ref(&x);
        let correction = two_b.sub_ref(&dx);
        proof {
            correction.lemma_limb_count_below(s + 2);
        }
        let y = x.mul_ref(&correction).shr_ref(scale_bits);
        proof {
            lemma_reciprocal_step_bound(d@, s, x@);
        }
        if y.is_zero() {
            x = Integer::one();
        } else {
            x = y;
        }
        i += 1;
    }
    proof {
        if bit_len(d@) + 3 <= s {
            lemma_reciprocal_accurate(d@, s);
        }
    }
    x
}

impl Fixed {
    /// The quotient `numerator / denominator` with `precision_bits` fraction
    /// bits, through a Newton reciprocal carried `bits(denominator) + 8` bits
    /// further; the result never overshoots the exact quotient, and falls
    /// short of it by less than one unit plus `numerator / (128 denominator)`.
    pub fn divide(numerator: Integer, denominator: Integer, precision_bits: usize) -> (r: Fixed)
        requires
            numerator.wf(),
            denominator.wf(),
            denominator@ > 0,
            numerator@ < pow2(bit_cap()),
            precision_bits + bit_len(denominator@) + 8 <= bit_cap(),
        ensures
            r.wf(),
            r@.1 == precision_bits,
            r@.0 == divide_value(numerator@, denominator@, precision_bits as nat),
            r@.0 * denominator@ <= numerator@ * pow2(precision_bits as nat),
            numerator@ * pow2(precision_bits as nat) * 128 < denominator@ * (r@.0 + 1) * 128
                + numerator@,
    {
        let m = precision_bits + denominator.bits() + 8;
        let reciprocal = reciprocal_newton(&denominator, m);
        proof {
            numerator.lemma_limb_count_below(bit_cap());
            lemma_bit_len_bounds(denominator@);
            lemma_pow2_pos(m as nat);
            assert(reciprocal@ <= denominator@ * reciprocal@) by (nonlinear_arith)
                requires
                    denominator@ >= 1,
            ;
            lemma_pow2_adds(m as nat, 1);
            lemma2_to64();
            reciprocal.lemma_limb_count_below((m + 1) as nat);
        }
        let product = numerator.mul_ref(&reciprocal);
        let value = product.shr_ref(m - precision_bits);
        proof {
            let k = (m - precision_bits) as nat;
            let nn = numerator@ as int;
            let rr = reciprocal@ as int;
            let dd = denominator@ as int;
            lemma_pow2_adds(precision_bits as nat, k);
            lemma_pow2_pos(k);
            lemma_fundamental_div_mod(nn * rr, pow2(k) as int);
            lemma_mod_bound(nn * rr, pow2(k) as int);
            let q = (nn * rr) / (pow2(k) as int);
            assert(q * dd <= nn * (pow2(precision_bits as nat) as int)) by (nonlinear_arith)
                requires
                    nn * rr == (pow2(k) as int) * q + (nn * rr) % (pow2(k) as int),
                    (nn * rr) % (pow2(k) as int) >= 0,
                    dd * rr <= pow2(m as nat),
                    pow2(m as nat) == pow2(precision_bits as nat) * pow2(k),
                    pow2(k) > 0,
                    nn >= 0,
                    dd >= 0,
                    q >= 0,
            {
                assert((pow2(k) as int) * (q * dd) <= (nn * rr) * dd);
                assert((nn * rr) * dd == nn * (dd * rr));
                assert(nn * (dd * rr) <= nn * (pow2(m as nat) as int));
                assert(nn * (pow2(m as nat) as int) == (pow2(k) as int) * (nn * (pow2(precision_bits as nat) as int)));
            }
            // the reciprocal is short of 2^m / d by at most two, so the quotient
            // is short by at most one unit and numerator / (128 d)
            let l = bit_len(denominator@);
            let c = pow2(l + 1) as int;
            let pk = pow2(k) as int;
            let pp = pow2(precision_bits as nat) as int;
            lemma_pow2_adds(l + 1, 7);
            lemma_pow2_pos(l + 1);
            assert(k == l + 1 + 7);
            assert(pk == c * 128);
            lemma_pow2_adds(l, 1);
            assert(2 * dd < c);
            assert(pow2(m as nat) <= dd * rr + 2 * dd);
            assert(nn * pp * 128 < dd * (q + 1) * 128 + nn) by (nonlinear_arith)
                requires
                    nn * rr == pk * q + (nn * rr) % pk,
                    (nn * rr) % pk < pk,
                    pow2(m as nat) <= dd * rr + 2 * dd,
                    pow2(m as nat) == pp * pk,
                    pk == c * 128,
                    2 * dd < c,
                    c > 0,
                    dd > 0,
                    nn >= 0,
                    q >= 0,
                    rr >= 0,
            {
                assert(nn * rr < pk * (q + 1));
                assert(dd * (nn * rr) <= dd * (pk * (q + 1)));
                assert(nn * (pp * pk) <= nn * (dd * rr) + nn * (2 * dd));
                assert(nn * (2 * dd) <= nn * c);
                assert(nn * pp * pk <= dd * (q + 1) * pk + nn * c);
                if nn * pp * 128 >= dd * (q + 1) * 128 + nn {
                    assert(nn * pp * 128 * c >= (dd * (q + 1) * 128 + nn) * c);
                    assert(nn * pp * pk >= dd * (q + 1) * pk + nn * c);
                    assert(dd * (nn * rr) < dd * (pk * (q + 1)));
                }
            }
        }
        Fixed { value, precision_bits }
    }
}

impl Fixed {
    /// The start of the inverse square root iteration: `2^precision_bits /
    /// sqrt(n)` to about 63 bits, from an integer square root.
    fn inv_sqrt_seed(n: u64, precision_bits: usize) -> (r: Fixed)
        requires
            n > 0,
        ensures
            r.wf(),
            r@ == (inv_sqrt_seed_value(n as nat, precision_bits as nat), precision_bits as nat),
    {
        proof {
            lemma2_to64_rest();
            lemma_pow2_adds(63, 63);
            lemma_pow2_adds(62, 64);
            assert(pow2(126) == 0x4000_0000_0000_0000_0000_0000_0000_0000) by {
                lemma2_to64();
                lemma_pow2_adds(62, 64);
            }
        }
        let s0 = isqrt_u128(0x4000_0000_0000_0000_0000_0000_0000_0000u128 / (n as u128));
        let v = Integer::from_u64(s0);
        proof {
            v.lemma_limb_count_below(64);
        }
        let value = if precision_bits >= 63 {
            v.shl_ref(precision_bits - 63)
        } else {
            v.shr_ref(63 - precision_bits)
        };
        Fixed { value, precision_bits }
    }

    /// `inv_sqrt_u64` where every step can be taken, which is reported:
    /// `None` exactly when some step would find `n x^2` above 3.
    pub fn try_inv_sqrt_u64(n: u64, precision_bits: usize) -> (r: Option<Fixed>)
        requires
            n > 0,
            precision_bits + 4 <= bit_cap(),
        ensures
            r is Some == inv_sqrt_runs(
                n as nat,
                precision_bits as nat,
                inv_sqrt_seed_value(n as nat, precision_bits as nat),
                2 + newton_steps(48, precision_bits as nat + 8),
            ),
            r matches Some(f) ==> f.wf() && f@ == (inv_sqrt_value(n as nat, precision_bits as nat), precision_bits as nat)
                && f@.0 < 3 * pow2(precision_bits as nat),
    {
        let ghost p = precision_bits as nat;
        let mut x = Self::inv_sqrt_seed(n, precision_bits);
        let three = Self::from_u64(3, precision_bits);
        let iters = newton_iterations(precision_bits);
        let ghost seed = x@.0;
        proof {
            lemma_inv_sqrt_seed(n as nat, p);
            lemma_pow2_adds(p, p);
            lemma_pow2_adds(p, 2);
            lemma_pow2_adds(p, 4);
            lemma2_to64();
            lemma_pow2_increases(p + 4, bit_cap());
            lemma_pow2_pos(p);
            assert(seed < pow2(p) * 3) by (nonlinear_arith)
                requires
                    n * seed * seed <= pow2(p) * pow2(p),
                    n >= 1,
                    pow2(p) > 0,
            {
                assert(seed * seed <= n * seed * seed);
                if seed >= pow2(p) * 3 {
                    assert(seed * seed >= (pow2(p) * 3) * (pow2(p) * 3));
                }
            }
        }
        let mut i: usize = 0;
        while i < iters
            invariant
                i <= iters,
                iters == 2 + newton_steps(48, p + 8),
                p == precision_bits,
                p + 4 <= bit_cap(),
                n >= 1,
                x.wf(),
                three.wf(),
                three@ == (3 * pow2(p), p),
                x@.1 == p,
                x@.0 == inv_sqrt_iter(n as nat, p, seed, i as nat),
                x@.0 < pow2(p) * 3,
                seed == inv_sqrt_seed_value(n as nat, p),
                inv_sqrt_runs(n as nat, p, seed, i as nat),
                pow2(p) > 0,
                pow2(p + 4) == pow2(p) * 16,
                pow2(p + 4) <= pow2(bit_cap()),
            decreases iters - i,
        {
            let ghost xv = x@.0;
            proof {
                lemma_fundamental_div_mod((xv * xv) as int, pow2(p) as int);
                let q = (xv * xv) / pow2(p);
                let rr = (xv * xv) % pow2(p);
                assert(q < pow2(p) * 16) by (nonlinear_arith)
                    requires
                        xv < pow2(p) * 3,
                        pow2(p) > 0,
                        xv * xv == pow2(p) * q + rr,
                        rr >= 0,
                {
                    assert(xv * xv < (pow2(p) * 3) * (pow2(p) * 3));
                }
            }
            let sq = x.mul(&x);
            let nx2 = sq.mul_u64(n);
            if !three.value.ge(&nx2.value) {
                proof {
                    let q = (xv * xv) / pow2(p);
                    assert(nx2@.0 == q * n);
                    assert(q * n == n * q) by {
                        lemma_mul_is_commutative(q as int, n as int);
                    }
                    assert(n * q > 3 * pow2(p));
                    if inv_sqrt_runs(n as nat, p, seed, iters as nat) {
                        lemma_inv_sqrt_runs_prefix(n as nat, p, seed, i as nat, iters as nat);
                    }
                }
                return None;
            }
            let c = three.sub(&nx2);
            proof {
                let q = (xv * xv) / pow2(p);
                let cv = c@.0;
                lemma_fundamental_div_mod((xv * xv) as int, pow2(p) as int);
                lemma_mod_bound((xv * xv) as int, pow2(p) as int);
                // x < 2^(p + 1): n q <= 3 2^p, so x^2 < 2^p (3 2^p + 1) <= 4 4^p
                assert(xv < pow2(p) * 2) by (nonlinear_arith)
                    requires
                        n * q <= 3 * pow2(p),
                        n >= 1,
                        xv * xv == pow2(p) * q + (xv * xv) % pow2(p),
                        (xv * xv) % pow2(p) < pow2(p),
                        pow2(p) > 0,
                {
                    assert(q <= n * q);
                    assert(xv * xv < pow2(p) * (q + 1));
                    assert(pow2(p) * (q + 1) <= pow2(p) * (3 * pow2(p) + 1));
                    assert(pow2(p) * (3 * pow2(p) + 1) <= (pow2(p) * 2) * (pow2(p) * 2));
                    if xv >= pow2(p) * 2 {
                        assert(xv * xv >= (pow2(p) * 2) * (pow2(p) * 2));
                    }
                }
                assert(cv <= 3 * pow2(p));
                lemma_fundamental_div_mod((xv * cv) as int, pow2(p) as int);
                lemma_mod_bound((xv * cv) as int, pow2(p) as int);
                assert((xv * cv) / pow2(p) < pow2(p) * 6) by (nonlinear_arith)
                    requires
                        xv < pow2(p) * 2,
                        cv <= 3 * pow2(p),
                        xv * cv == pow2(p) * ((xv * cv) / pow2(p)) + (xv * cv) % pow2(p),
                        (xv * cv) % pow2(p) >= 0,
                        pow2(p) > 0,
                {
                    assert(xv * cv <= (pow2(p) * 2) * (3 * pow2(p)) - cv);
                    if (xv * cv) / pow2(p) >= pow2(p) * 6 {
                        assert(pow2(p) * ((xv * cv) / pow2(p)) >= pow2(p) * (pow2(p) * 6));
                    }
                }
                assert(c@.0 < pow2(bit_cap()));
                assert(inv_sqrt_runs(n as nat, p, seed, (i + 1) as nat));
            }
            let y = x.mul(&c).shr1();
            proof {
                assert(y@.0 == inv_sqrt_step(n as nat, p, xv));
            }
            x = y;
            i += 1;
        }
        Some(x)
    }

    /// `1 / sqrt(n)` with `precision_bits` fraction bits, by Newton's
    /// iteration `x (3 - n x^2) / 2`, each product truncated to
    /// `precision_bits` fraction bits; every step must find `n x^2` at most 3
    /// (`try_inv_sqrt_u64` tells whether they do), as they all do for
    /// `n <= 2^precision_bits`. The result is below 3; for
    /// `n <= 2^precision_bits` it never exceeds `sqrt(3 / n)`
    /// and `|4^p - n x^2| <= 512 n 2^p`; with `n <= 2^(precision_bits - 8)`
    /// it is accurate: `|4^p - n x^2| <= 12 n 2^p`, and `sqrt(n) x` is within
    /// `12 n` of `2^p`, that is `x` within `12 sqrt(n)` of `2^p / sqrt(n)`.
    pub fn inv_sqrt_u64(n: u64, precision_bits: usize) -> (r: Fixed)
        requires
            n > 0,
            precision_bits + 4 <= bit_cap(),
            inv_sqrt_runs(
                n as nat,
                precision_bits as nat,
                inv_sqrt_seed_value(n as nat, precision_bits as nat),
                2 + newton_steps(48, precision_bits as nat + 8),
            ),
        ensures
            r.wf(),
            r@ == (inv_sqrt_value(n as nat, precision_bits as nat), precision_bits as nat),
            r@.0 < 3 * pow2(precision_bits as nat),
            n <= pow2(precision_bits as nat) ==> {
                &&& n * r@.0 * r@.0 <= 3 * pow2(2 * precision_bits as nat)
                &&& pow2(2 * precision_bits as nat) <= n * r@.0 * r@.0 + 512 * n * pow2(precision_bits as nat)
                &&& n * r@.0 * r@.0 <= pow2(2 * precision_bits as nat) + 512 * n * pow2(precision_bits as nat)
            },
            256 * n <= pow2(precision_bits as nat) ==> {
                &&& pow2(2 * precision_bits as nat) <= n * r@.0 * r@.0 + 12 * n * pow2(precision_bits as nat)
                &&& n * r@.0 * r@.0 <= pow2(2 * precision_bits as nat) + 12 * n * pow2(precision_bits as nat)
                &&& (pow2(precision_bits as nat) - 12 * n) * (pow2(precision_bits as nat) - 12 * n) <= n * r@.0 * r@.0
                &&& n * r@.0 * r@.0 <= (pow2(precision_bits as nat) + 12 * n) * (pow2(precision_bits as nat) + 12 * n)
            },
    {
        let ghost p = precision_bits as nat;
        let ghost k = 2 + newton_steps(48, p + 8);
        match Self::try_inv_sqrt_u64(n, precision_bits) {
            Some(x) => {
                proof {
                    let v = x@.0;
                    let b = pow2(p) as int;
                    let ni = n as int;
                    let sq = (n * v * v) as int;
                    lemma_pow2_adds(p, p);
                    lemma_pow2_pos(p);
                    if n <= pow2(p) {
                        lemma_inv_sqrt_runs(n as nat, p, k);
                        assert(sq <= 3 * (b * b));
                        if 256 * n <= pow2(p) {
                            lemma_inv_sqrt_accurate(n as nat, p);
                        } else {
                            assert(b * b <= sq + 512 * ni * b) by (nonlinear_arith)
                                requires
                                    256 * ni > b,
                                    b > 0,
                                    sq >= 0,
                            ;
                        }
                        assert(sq <= b * b + 512 * ni * b) by (nonlinear_arith)
                            requires
                                sq <= 3 * (b * b),
                                256 * ni > b || sq <= b * b + 12 * ni * b,
                                b > 0,
                                ni >= 1,
                        ;
                        if 256 * n <= pow2(p) {
                            assert(b * b <= sq + 512 * ni * b) by (nonlinear_arith)
                                requires
                                    b * b <= sq + 12 * ni * b,
                                    ni >= 1,
                                    b > 0,
                            ;
                            assert((b - 12 * ni) * (b - 12 * ni) <= sq) by (nonlinear_arith)
                                requires
                                    b * b <= sq + 12 * ni * b,
                                    256 * ni <= b,
                                    ni >= 1,
                            ;
                            assert(sq <= (b + 12 * ni) * (b + 12 * ni)) by (nonlinear_arith)
                                requires
                                    sq <= b * b + 12 * ni * b,
                                    ni >= 1,
                                    b > 0,
                            ;
                        }
                    }
                }
                x
            },
            None => {
                proof {
                    assert(false);
                }
                Self::from_u64(0, precision_bits)
            },
        }
    }
}

/// The mantissa `Fixed::divide` computes: the numerator times the Newton
/// reciprocal of the denominator, carried `bits(den) + 8` bits further and
/// shifted back.
pub open spec fn divide_value(num: nat, den: nat, p: nat) -> nat {
    let m = p + bit_len(den) + 8;
    (num * reciprocal_iter(den, m, reciprocal_seed_value(den, m), 2 + newton_steps(48, m + 8)))
        / pow2(bit_len(den) + 8)
}

/// The mantissa `Fixed::inv_sqrt_u64` computes.
pub open spec fn inv_sqrt_value(n: nat, p: nat) -> nat {
    inv_sqrt_iter(n, p, inv_sqrt_seed_value(n, p), 2 + newton_steps(48, p + 8))
}

} // verus!
