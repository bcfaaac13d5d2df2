//! Binary splitting for series whose terms are ratios of integer factors
//! (the "DRM" scheme): products `P`, `Q` and a signed sum `T` over a range of
//! term indices, combined from the two halves of the range.
use vstd::prelude::*;
use vstd::arithmetic::mul::*;
use vstd::arithmetic::power2::*;
use crate::bigint::Integer;
use crate::binary_fixed::bit_cap;

verus! {

/// The factors of one term, and of a range of terms: `p` and `q` are products,
/// the signed sum is `t_positive - t_negative`.
#[derive(Debug)]
pub struct Drm3Term {
    pub p: Integer,
    pub q: Integer,
    pub t_positive: Integer,
    pub t_negative: Integer,
}

impl Drm3Term {
    pub open spec fn wf(&self) -> bool {
        &&& self.p.wf()
        &&& self.q.wf()
        &&& self.t_positive.wf()
        &&& self.t_negative.wf()
    }

    /// The signed sum `t_positive - t_negative`.
    pub open spec fn t(&self) -> int {
        self.t_positive@ - self.t_negative@
    }

    /// The magnitude of the signed sum, when it is positive.
    pub fn t_magnitude_when_positive(&self) -> (r: Integer)
        requires
            self.wf(),
            self.t() > 0,
        ensures
            r.wf(),
            r@ == self.t(),
    {
        self.t_positive.sub_ref(&self.t_negative)
    }
}

/// A series evaluated by binary splitting: term `k` contributes the factors
/// `p(k)`, `q(k)` and the signed numerator `t(k)`, split into its positive and
/// negative parts.
pub trait DrmFormula {
    /// The `p` factor of term `k`.
    spec fn term_p(&self, k: nat) -> nat;

    /// The `q` factor of term `k`.
    spec fn term_q(&self, k: nat) -> nat;

    /// The positive part of the numerator of term `k`.
    spec fn term_t_positive(&self, k: nat) -> nat;

    /// The negative part of the numerator of term `k`.
    spec fn term_t_negative(&self, k: nat) -> nat;

    /// The indices for which `term` computes without overflow.
    spec fn term_in_range(&self, k: nat) -> bool;

    /// The factors of term `k`.
    fn term(&self, k: usize) -> (r: Drm3Term)
        requires
            self.term_in_range(k as nat),
        ensures
            r.wf(),
            r.p@ == self.term_p(k as nat),
            r.q@ == self.term_q(k as nat),
            r.t_positive@ == self.term_t_positive(k as nat),
            r.t_negative@ == self.term_t_negative(k as nat),
    ;

    /// The number of terms summed for `digits` decimal digits.
    fn terms_for_digits(&self, digits: usize) -> usize;
}

/// `P(a, b)`: the product of `p(k)` for `a <= k < b`.
pub open spec fn range_p<F: DrmFormula>(f: &F, a: nat, b: nat) -> nat
    decreases b - a,
{
    if b <= a {
        1
    } else {
        range_p(f, a, (b - 1) as nat) * f.term_p((b - 1) as nat)
    }
}

/// `Q(a, b)`: the product of `q(k)` for `a <= k < b`.
pub open spec fn range_q<F: DrmFormula>(f: &F, a: nat, b: nat) -> nat
    decreases b - a,
{
    if b <= a {
        1
    } else {
        range_q(f, a, (b - 1) as nat) * f.term_q((b - 1) as nat)
    }
}

/// The positive part of `T(a, b)`: the sum over `a <= k < b` of
/// `P(a, k) * t_positive(k) * Q(k + 1, b)`.
pub open spec fn range_t_positive<F: DrmFormula>(f: &F, a: nat, b: nat) -> nat
    decreases b - a,
{
    if b <= a {
        0
    } else {
        range_t_positive(f, a, (b - 1) as nat) * f.term_q((b - 1) as nat) + range_p(
            f,
            a,
            (b - 1) as nat,
        ) * f.term_t_positive((b - 1) as nat)
    }
}

/// The negative part of `T(a, b)`, as the positive part.
pub open spec fn range_t_negative<F: DrmFormula>(f: &F, a: nat, b: nat) -> nat
    decreases b - a,
{
    if b <= a {
        0
    } else {
        range_t_negative(f, a, (b - 1) as nat) * f.term_q((b - 1) as nat) + range_p(
            f,
            a,
            (b - 1) as nat,
        ) * f.term_t_negative((b - 1) as nat)
    }
}

/// Binary splitting: a range splits at any point `m` into its halves,
/// `P(a, b) = P(a, m) P(m, b)`, `Q(a, b) = Q(a, m) Q(m, b)`, and each part of
/// the sum `T(a, b) = T(a, m) Q(m, b) + P(a, m) T(m, b)`.
pub proof fn lemma_range_split<F: DrmFormula>(f: &F, a: nat, m: nat, b: nat)
    requires
        a <= m <= b,
    ensures
        range_p(f, a, b) == range_p(f, a, m) * range_p(f, m, b),
        range_q(f, a, b) == range_q(f, a, m) * range_q(f, m, b),
        range_t_positive(f, a, b) == range_t_positive(f, a, m) * range_q(f, m, b) + range_p(f, a, m)
            * range_t_positive(f, m, b),
        range_t_negative(f, a, b) == range_t_negative(f, a, m) * range_q(f, m, b) + range_p(f, a, m)
            * range_t_negative(f, m, b),
    decreases b - m,
{
    let pam = range_p(f, a, m);
    let qam = range_q(f, a, m);
    if b == m {
        assert(range_p(f, m, m) == 1);
        assert(range_q(f, m, m) == 1);
        assert(range_t_positive(f, m, m) == 0);
        assert(range_t_negative(f, m, m) == 0);
        lemma_mul_basics(pam as int);
        lemma_mul_basics(qam as int);
        lemma_mul_basics(range_t_positive(f, a, m) as int);
        lemma_mul_basics(range_t_negative(f, a, m) as int);
    } else {
        let b1 = (b - 1) as nat;
        lemma_range_split(f, a, m, b1);
        let pk = f.term_p(b1);
        let qk = f.term_q(b1);
        let tpk = f.term_t_positive(b1);
        let tnk = f.term_t_negative(b1);
        let pmb = range_p(f, m, b1);
        let qmb = range_q(f, m, b1);
        assert(range_p(f, a, b) == range_p(f, a, b1) * pk);
        assert(range_p(f, m, b) == pmb * pk);
        assert(range_q(f, a, b) == range_q(f, a, b1) * qk);
        assert(range_q(f, m, b) == qmb * qk);
        assert(pam * pmb * pk == pam * (pmb * pk)) by {
            lemma_mul_is_associative(pam as int, pmb as int, pk as int);
        }
        assert(qam * qmb * qk == qam * (qmb * qk)) by {
            lemma_mul_is_associative(qam as int, qmb as int, qk as int);
        }
        let tp_am = range_t_positive(f, a, m);
        let tp_mb = range_t_positive(f, m, b1);
        assert(range_t_positive(f, a, b) == range_t_positive(f, a, b1) * qk + range_p(f, a, b1) * tpk);
        assert(range_t_positive(f, m, b) == tp_mb * qk + pmb * tpk);
        assert((tp_am * qmb + pam * tp_mb) * qk + (pam * pmb) * tpk == tp_am * (qmb * qk) + pam * (tp_mb
            * qk + pmb * tpk)) by (nonlinear_arith);
        let tn_am = range_t_negative(f, a, m);
        let tn_mb = range_t_negative(f, m, b1);
        assert(range_t_negative(f, a, b) == range_t_negative(f, a, b1) * qk + range_p(f, a, b1) * tnk);
        assert(range_t_negative(f, m, b) == tn_mb * qk + pmb * tnk);
        assert((tn_am * qmb + pam * tn_mb) * qk + (pam * pmb) * tnk == tn_am * (qmb * qk) + pam * (tn_mb
            * qk + pmb * tnk)) by (nonlinear_arith);
    }
}

/// Every index of `[a, b)` has a term that computes, with positive `p` and `q`.
pub open spec fn terms_valid<F: DrmFormula>(f: &F, a: nat, b: nat) -> bool {
    forall|k: nat|
        a <= k < b ==> #[trigger] f.term_in_range(k) && f.term_p(k) >= 1 && f.term_q(k) >= 1
}

/// With positive factors, the range products are positive.
pub proof fn lemma_range_positive<F: DrmFormula>(f: &F, a: nat, b: nat)
    requires
        terms_valid(f, a, b),
    ensures
        range_p(f, a, b) >= 1,
        range_q(f, a, b) >= 1,
    decreases b - a,
{
    if b > a {
        let b1 = (b - 1) as nat;
        lemma_range_positive(f, a, b1);
        assert(f.term_in_range(b1));
        lemma_mul_increases(f.term_p(b1) as int, range_p(f, a, b1) as int);
        lemma_mul_increases(f.term_q(b1) as int, range_q(f, a, b1) as int);
        lemma_mul_is_commutative(f.term_p(b1) as int, range_p(f, a, b1) as int);
        lemma_mul_is_commutative(f.term_q(b1) as int, range_q(f, a, b1) as int);
    }
}

/// With positive factors, the parts of a half range never exceed those of the
/// whole range.
proof fn lemma_range_halves_bounded<F: DrmFormula>(f: &F, a: nat, m: nat, b: nat)
    requires
        a <= m <= b,
        terms_valid(f, a, b),
    ensures
        range_p(f, a, m) <= range_p(f, a, b),
        range_p(f, m, b) <= range_p(f, a, b),
        range_q(f, a, m) <= range_q(f, a, b),
        range_q(f, m, b) <= range_q(f, a, b),
        range_t_positive(f, a, m) * range_q(f, m, b) <= range_t_positive(f, a, b),
        range_p(f, a, m) * range_t_positive(f, m, b) <= range_t_positive(f, a, b),
        range_t_negative(f, a, m) * range_q(f, m, b) <= range_t_negative(f, a, b),
        range_p(f, a, m) * range_t_negative(f, m, b) <= range_t_negative(f, a, b),
        range_t_positive(f, a, m) <= range_t_positive(f, a, b),
        range_t_positive(f, m, b) <= range_t_positive(f, a, b),
        range_t_negative(f, a, m) <= range_t_negative(f, a, b),
        range_t_negative(f, m, b) <= range_t_negative(f, a, b),
{
    lemma_range_split(f, a, m, b);
    assert(terms_valid(f, a, m));
    assert(terms_valid(f, m, b));
    lemma_range_positive(f, a, m);
    lemma_range_positive(f, m, b);
    let pam = range_p(f, a, m) as int;
    let pmb = range_p(f, m, b) as int;
    let qam = range_q(f, a, m) as int;
    let qmb = range_q(f, m, b) as int;
    let tpa = range_t_positive(f, a, m) as int;
    let tpb = range_t_positive(f, m, b) as int;
    let tna = range_t_negative(f, a, m) as int;
    let tnb = range_t_negative(f, m, b) as int;
    lemma_mul_increases(pmb, pam);
    lemma_mul_is_commutative(pmb, pam);
    lemma_mul_increases(pam, pmb);
    lemma_mul_increases(qmb, qam);
    lemma_mul_is_commutative(qmb, qam);
    lemma_mul_increases(qam, qmb);
    lemma_mul_nonnegative(tpa, qmb);
    lemma_mul_nonnegative(pam, tpb);
    lemma_mul_nonnegative(tna, qmb);
    lemma_mul_nonnegative(pam, tnb);
    assert(tpa <= tpa * qmb) by (nonlinear_arith)
        requires
            qmb >= 1,
            tpa >= 0,
    ;
    assert(tpb <= pam * tpb) by (nonlinear_arith)
        requires
            pam >= 1,
            tpb >= 0,
    ;
    assert(tna <= tna * qmb) by (nonlinear_arith)
        requires
            qmb >= 1,
            tna >= 0,
    ;
    assert(tnb <= pam * tnb) by (nonlinear_arith)
        requires
            pam >= 1,
            tnb >= 0,
    ;
}

/// The factors of the terms `a <= k < b`, by binary splitting: split the range
/// in halves, evaluate each, and combine
/// `P = P_l P_r`, `Q = Q_l Q_r`, `T = T_l Q_r + P_l T_r`.
pub fn split<F: DrmFormula>(formula: &F, a: usize, b: usize) -> (r: Drm3Term)
    requires
        a < b,
        terms_valid(formula, a as nat, b as nat),
        range_p(formula, a as nat, b as nat) < pow2(bit_cap()),
        range_q(formula, a as nat, b as nat) < pow2(bit_cap()),
        range_t_positive(formula, a as nat, b as nat) < pow2(bit_cap()),
        range_t_negative(formula, a as nat, b as nat) < pow2(bit_cap()),
    ensures
        r.wf(),
        r.p@ == range_p(formula, a as nat, b as nat),
        r.q@ == range_q(formula, a as nat, b as nat),
        r.t_positive@ == range_t_positive(formula, a as nat, b as nat),
        r.t_negative@ == range_t_negative(formula, a as nat, b as nat),
    decreases b - a,
{
    if b - a == 1 {
        proof {
            assert(formula.term_in_range(a as nat));
            let an = a as nat;
            assert(range_p(formula, an, an) == 1);
            assert(range_q(formula, an, an) == 1);
            assert(range_t_positive(formula, an, an) == 0);
            assert(range_t_negative(formula, an, an) == 0);
            assert((an + 1 - 1) as nat == an);
            lemma_mul_basics(formula.term_p(an) as int);
            lemma_mul_basics(formula.term_q(an) as int);
            lemma_mul_basics(formula.term_t_positive(an) as int);
            lemma_mul_basics(formula.term_t_negative(an) as int);
            lemma_mul_basics(formula.term_q(an) as int);
        }
        return formula.term(a);
    }
    let m = a + (b - a) / 2;
    proof {
        lemma_range_halves_bounded(formula, a as nat, m as nat, b as nat);
        assert(terms_valid(formula, a as nat, m as nat));
        assert(terms_valid(formula, m as nat, b as nat));
    }
    let left = split(formula, a, m);
    let right = split(formula, m, b);
    proof {
        lemma_range_split(formula, a as nat, m as nat, b as nat);
        left.p.lemma_limb_count_below(bit_cap());
        left.q.lemma_limb_count_below(bit_cap());
        left.t_positive.lemma_limb_count_below(bit_cap());
        left.t_negative.lemma_limb_count_below(bit_cap());
        right.p.lemma_limb_count_below(bit_cap());
        right.q.lemma_limb_count_below(bit_cap());
        right.t_positive.lemma_limb_count_below(bit_cap());
        right.t_negative.lemma_limb_count_below(bit_cap());
    }
    let p = left.p.mul_ref(&right.p);
    let q = left.q.mul_ref(&right.q);
    let t_positive = left.t_positive.mul_ref(&right.q).add_ref(&left.p.mul_ref(&right.t_positive));
    let t_negative = left.t_negative.mul_ref(&right.q).add_ref(&left.p.mul_ref(&right.t_negative));
    Drm3Term { p, q, t_positive, t_negative }
}

/// Every term of `[a, b)` has factors and numerator parts below `2^w`.
pub open spec fn terms_bounded<F: DrmFormula>(f: &F, a: nat, b: nat, w: nat) -> bool {
    forall|k: nat|
        a <= k < b ==> {
            &&& #[trigger] f.term_p(k) < pow2(w)
            &&& f.term_q(k) < pow2(w)
            &&& f.term_t_positive(k) < pow2(w)
            &&& f.term_t_negative(k) < pow2(w)
        }
}

/// Range products grow by at most `w` bits per term, the sums by `2w`.
pub proof fn lemma_range_bounds<F: DrmFormula>(f: &F, a: nat, b: nat, w: nat)
    requires
        a <= b,
        w >= 1,
        terms_bounded(f, a, b, w),
    ensures
        range_p(f, a, b) <= pow2(w * (b - a) as nat),
        range_q(f, a, b) <= pow2(w * (b - a) as nat),
        range_t_positive(f, a, b) < pow2(2 * w * (b - a) as nat),
        range_t_negative(f, a, b) < pow2(2 * w * (b - a) as nat),
    decreases b - a,
{
    lemma2_to64();
    if b == a {
        assert(w * 0 == 0);
        assert(2 * w * 0 == 0);
    } else {
        let b1 = (b - 1) as nat;
        let l1 = (b1 - a) as nat;
        lemma_range_bounds(f, a, b1, w);
        assert(terms_bounded(f, a, b1, w));
        assert(f.term_p(b1) < pow2(w));
        let u = pow2(w) as int;
        let g = pow2(w * l1) as int;
        lemma_pow2_adds(w * l1, w);
        lemma_pow2_adds(w * l1, w * l1);
        lemma_pow2_adds(2 * w * l1, 2 * w);
        lemma_pow2_adds(w, w);
        assert(w * l1 + w == w * (b - a) as nat) by (nonlinear_arith)
            requires
                l1 + 1 == b - a,
        ;
        assert(2 * w * l1 + 2 * w == 2 * w * (b - a) as nat) by (nonlinear_arith)
            requires
                l1 + 1 == b - a,
        ;
        assert(w * l1 + w * l1 == 2 * w * l1) by (nonlinear_arith);
        lemma_pow2_pos(w * l1);
        crate::limbs::lemma_pow2_increases(1, w);
        assert(pow2(1) == 2);
        let pp = range_p(f, a, b1) as int;
        let qq = range_q(f, a, b1) as int;
        assert(pp * f.term_p(b1) <= g * u) by (nonlinear_arith)
            requires
                0 <= pp <= g,
                0 <= f.term_p(b1) < u,
        ;
        assert(qq * f.term_q(b1) <= g * u) by (nonlinear_arith)
            requires
                0 <= qq <= g,
                0 <= f.term_q(b1) < u,
        ;
        let xp = range_t_positive(f, a, b1) as int;
        let xn = range_t_negative(f, a, b1) as int;
        assert(xp * f.term_q(b1) + pp * f.term_t_positive(b1) < (g * g) * (u * u)) by (nonlinear_arith)
            requires
                0 <= xp < g * g,
                0 <= f.term_q(b1) < u,
                0 <= pp <= g,
                0 <= f.term_t_positive(b1) < u,
                g >= 1,
                u >= 2,
        {
            assert(xp * f.term_q(b1) < (g * g) * u);
            assert(pp * f.term_t_positive(b1) < g * u);
            assert(g * u <= (g * g) * u);
            assert(2 * ((g * g) * u) <= (g * g) * (u * u));
        }
        assert(xn * f.term_q(b1) + pp * f.term_t_negative(b1) < (g * g) * (u * u)) by (nonlinear_arith)
            requires
                0 <= xn < g * g,
                0 <= f.term_q(b1) < u,
                0 <= pp <= g,
                0 <= f.term_t_negative(b1) < u,
                g >= 1,
                u >= 2,
        {
            assert(xn * f.term_q(b1) < (g * g) * u);
            assert(pp * f.term_t_negative(b1) < g * u);
            assert(g * u <= (g * g) * u);
            assert(2 * ((g * g) * u) <= (g * g) * (u * u));
        }
    }
}

} // verus!
