//! Multi-precision reals: an integer mantissa scaled by `2^(-64 * point)`,
//! with a Newton reciprocal.
use vstd::prelude::*;
use vstd::arithmetic::mul::*;
use vstd::arithmetic::div_mod::*;
use vstd::arithmetic::power2::*;
use super::integer::Integer;
use crate::digits::{limbs_text, at_least, append_limbs_text};
use super::integer::{integer_text, lemma_limbs_determined};
use crate::isqrt::{isqrt, isqrt_u128};
use vstd::arithmetic::power::pow;

use crate::limbs::{
    lemma_bpow_add,
    base, bpow, limbs_value, limb_len, is_normalized, lemma_limb_len, lemma_bpow_pow2,
    lemma_value_bound, lemma_bpow_pos, lemma_bpow_mono, lemma_value_split, lemma_value_concat,
    lemma_value_zero, lemma_limb_len_unique, lemma_pow2_increases,
};

verus! {

/// A multi-precision real: `mantissa / 2^(64 * point)`.
#[derive(Debug)]
pub struct Real {
    pub mantissa: Integer,
    pub point: usize,
}

/// How many of the `n` leading limbs of `a` exist.
pub open spec fn leading_len(a: Seq<u64>, n: nat) -> nat {
    if n < a.len() {
        n
    } else {
        a.len()
    }
}

/// The value of the `n` leading limbs of `a`, as an integer.
pub open spec fn leading_value(a: Seq<u64>, n: nat) -> nat {
    limbs_value(a.skip(a.len() - leading_len(a, n)))
}

/// The precisions, in limbs, of the Newton steps for a reciprocal of `limbs`
/// limbs, finest first: while more than 40 bits are wanted, a step of
/// `(bits + 127) / 64` limbs (at most `limbs`), then half the bits.
pub open spec fn invert_lens(bits: nat, limbs: nat) -> Seq<nat>
    decreases bits,
{
    if bits > 40 {
        let len = (bits + 127) / 64;
        seq![if len < limbs { len } else { limbs }] + invert_lens((bits + 1) / 2, limbs)
    } else {
        Seq::empty()
    }
}

/// The steps of `invert_lens` are at most `limbs` limbs, and there are at most
/// `bits` of them.
pub proof fn lemma_invert_lens(bits: nat, limbs: nat)
    ensures
        invert_lens(bits, limbs).len() <= bits,
        forall|i: int| 0 <= i < invert_lens(bits, limbs).len() ==> #[trigger] invert_lens(bits, limbs)[i] <= limbs,
    decreases bits,
{
    if bits > 40 {
        lemma_invert_lens((bits + 1) / 2, limbs);
        let len = (bits + 127) / 64;
        let head = seq![if len < limbs { len } else { limbs }];
        let rest = invert_lens((bits + 1) / 2, limbs);
        assert forall|i: int| 0 <= i < invert_lens(bits, limbs).len() implies #[trigger] invert_lens(bits, limbs)[i] <= limbs by {
            if i > 0 {
                assert(invert_lens(bits, limbs)[i] == rest[i - 1]);
            }
        }
    }
}

/// The limb count `mul_assign` leaves for a product `v` of integers of `xl`
/// and `yl` limbs.
pub open spec fn product_len(v: nat, xl: nat, yl: nat) -> nat {
    if v < bpow((xl + yl - 1) as nat) {
        (xl + yl - 1) as nat
    } else {
        xl + yl
    }
}

/// The limb count left after dropping `k` limbs from `len`.
pub open spec fn drop_len(len: nat, k: nat) -> nat {
    if len > k {
        (len - k) as nat
    } else {
        0
    }
}

/// The parts of one Newton step of the reciprocal of `a` at `n` limbs, from
/// `x` with value `v` and `len` limbs. With `t = a_n x` (`a_n` the `n`
/// leading limbs of `a`) of `tl` limbs, the step is over when the top limb of
/// `t` is one; the error is `t` less that top limb, or else the complement of
/// `t` within its limbs. The error, its low `len` limbs dropped, times `x`,
/// its low `len - 1` limbs dropped, is the correction `c` of `cl` limbs; `x`
/// moves up `n - len` limbs. Returned: (tl, over, c, cl, moved x).
pub open spec fn invert_step_parts(a: Seq<u64>, v: nat, len: nat, n: nat) -> (nat, bool, nat, nat, nat) {
    let nn = leading_len(a, n);
    let t1 = leading_value(a, n) * v;
    let tl1 = product_len(t1, nn, len);
    let over = tl1 >= 1 && t1 / bpow((tl1 - 1) as nat) == 1;
    let t2 = if over {
        t1 % bpow((tl1 - 1) as nat)
    } else {
        ((bpow(tl1) - t1) % (bpow(tl1) as int)) as nat
    };
    let t3 = t2 / bpow(len);
    let tl3 = drop_len(limb_len(t2), len);
    let t4 = t3 * v;
    let tl4 = product_len(t4, tl3, len);
    let c = t4 / bpow((len - 1) as nat);
    let cl = drop_len(tl4, (len - 1) as nat);
    let moved = v * bpow((n - len) as nat);
    (tl1, over, c, cl, moved)
}

/// The step can be taken: `x` has a limb and no more than `n`, the product
/// has a limb, and when over the correction has no more limbs than the moved
/// `x` and a different value.
pub open spec fn invert_step_ok(a: Seq<u64>, v: nat, len: nat, n: nat) -> bool {
    let (tl1, over, c, cl, moved) = invert_step_parts(a, v, len, n);
    &&& 1 <= len <= n
    &&& tl1 >= 1
    &&& over ==> cl <= n && c != moved
}

/// The value and limb count after the step: the moved `x` less the
/// correction (within `n` limbs, most-significant zero limbs dropped) when
/// over, else plus it.
pub open spec fn invert_step_state(a: Seq<u64>, v: nat, len: nat, n: nat) -> (nat, nat) {
    let (tl1, over, c, cl, moved) = invert_step_parts(a, v, len, n);
    if over {
        let r = if moved > c {
            (moved - c) as nat
        } else {
            (moved + bpow(n) - c) as nat
        };
        (r, limb_len(r))
    } else {
        let ml = if n >= cl {
            n
        } else {
            cl
        };
        let r = moved + c;
        (r, if r >= bpow(ml) {
            ml + 1
        } else {
            ml
        })
    }
}

/// The Newton steps of `lens`, the last one first, can all be taken from the
/// value `v` with `len` limbs.
pub open spec fn invert_runs(a: Seq<u64>, v: nat, len: nat, lens: Seq<nat>) -> bool
    decreases lens.len(),
{
    if lens.len() == 0 {
        true
    } else {
        let st = invert_step_state(a, v, len, lens.last());
        invert_step_ok(a, v, len, lens.last()) && invert_runs(a, st.0, st.1, lens.drop_last())
    }
}

/// The value and limb count after the Newton steps of `lens`, the last one
/// first.
pub open spec fn invert_run(a: Seq<u64>, v: nat, len: nat, lens: Seq<nat>) -> (nat, nat)
    decreases lens.len(),
{
    if lens.len() == 0 {
        (v, len)
    } else {
        let st = invert_step_state(a, v, len, lens.last());
        invert_run(a, st.0, st.1, lens.drop_last())
    }
}

/// The top limb of a nonempty limb vector is its value over `bpow(len - 1)`,
/// and the limbs below it hold the remainder.
proof fn lemma_top_limb(s: Seq<u64>)
    requires
        s.len() > 0,
    ensures
        s.last() as nat == limbs_value(s) / bpow((s.len() - 1) as nat),
        limbs_value(s.drop_last()) == limbs_value(s) % bpow((s.len() - 1) as nat),
{
    let k = (s.len() - 1) as int;
    lemma_value_split(s, k);
    assert(s.take(k) =~= s.drop_last());
    assert(s.skip(k) =~= seq![s.last()]);
    assert(seq![s.last()].skip(1) =~= Seq::<u64>::empty());
    assert(seq![s.last()][0] == s.last());
    assert(limbs_value(seq![s.last()].skip(1)) == 0);
    assert(limbs_value(seq![s.last()]) == s.last() as nat);
    lemma_value_bound(s.take(k));
    lemma_bpow_pos(k as nat);
    let q = s.last() as int;
    let d = bpow(k as nat) as int;
    let r = limbs_value(s.take(k)) as int;
    assert(limbs_value(s.skip(k)) == s.last() as nat);
    assert(limbs_value(s) as int == q * d + r) by {
        lemma_mul_is_commutative(q, d);
    }
    assert(0 <= r < d);
    lemma_fundamental_div_mod_converse(
        limbs_value(s) as int,
        bpow(k as nat) as int,
        s.last() as int,
        limbs_value(s.take(k)) as int,
    );
}

/// A value below `bpow(k)` has at most `k` limbs.
proof fn lemma_limb_len_below(v: nat, k: nat)
    requires
        v < bpow(k),
    ensures
        limb_len(v) <= k,
{
    lemma_limb_len(v);
    if limb_len(v) > k {
        lemma_bpow_mono(k, (limb_len(v) - 1) as nat);
    }
}

/// The error of `x` (value `v`, `m` limbs) at step `n`: `a_n v - 2^(64 (n + m - 1))`.
pub open spec fn invert_error(a: Seq<u64>, v: nat, m: nat, n: nat) -> int {
    (leading_value(a, n) * v) as int - bpow((n + m - 1) as nat) as int
}

/// One Newton step of the reciprocal squares the error, up to truncation:
/// when `a` has at least `n` limbs, `1 <= m <= n` and the error `E` is at
/// most half of `W = 2^(64 (n + m - 1))`, the step can be taken, and the new
/// error `E'` at `m = n` satisfies
/// `|E'| 2^(64 (2m - 1)) <= E^2 + 2 * 2^(64 n) 2^(64 (2m - 1)) + 2^(64 m) |E|`.
pub proof fn lemma_invert_step_error(a: Seq<u64>, v: nat, m: nat, n: nat)
    requires
        1 <= m <= n,
        n <= a.len(),
        2 * (if invert_error(a, v, m, n) >= 0 { invert_error(a, v, m, n) } else { -invert_error(a, v, m, n) })
            <= bpow((n + m - 1) as nat),
    ensures
        invert_step_ok(a, v, m, n),
        ({
            let e = invert_error(a, v, m, n);
            let e2 = invert_error(a, invert_step_state(a, v, m, n).0, n, n);
            let ae = if e >= 0 { e } else { -e };
            let ae2 = if e2 >= 0 { e2 } else { -e2 };
            let pp = bpow((2 * m - 1) as nat) as int;
            ae2 * pp <= e * e + 2 * (bpow(n) as int) * pp + (bpow(m) as int) * ae
        }),
        invert_step_parts(a, v, m, n).3 <= n,
        invert_step_parts(a, v, m, n).2 < invert_step_parts(a, v, m, n).4,
{
    let nn = leading_len(a, n);
    assert(nn == n);
    let aa = leading_value(a, n);
    lemma_value_bound(a.skip(a.len() - n));
    assert(aa < bpow(n));
    let w = bpow((n + m - 1) as nat) as int;
    let bm = bpow(m) as int;
    let bm1 = bpow((m - 1) as nat) as int;
    let pp = bpow((2 * m - 1) as nat) as int;
    let bn = bpow(n) as int;
    let bnm = bpow((n - m) as nat) as int;
    let w2 = bpow((2 * n - 1) as nat) as int;
    let b = base() as int;
    lemma_bpow_pos((n + m - 1) as nat);
    lemma_bpow_pos(m);
    lemma_bpow_pos((m - 1) as nat);
    lemma_bpow_pos((n - m) as nat);
    lemma_bpow_pos((n + m - 2) as nat);
    lemma_bpow_add(m, (m - 1) as nat);
    assert(m + (m - 1) as nat == (2 * m - 1) as nat);
    assert(pp == bm * bm1);
    lemma_bpow_add((n - m) as nat, (2 * m - 1) as nat);
    assert((n - m) as nat + (2 * m - 1) as nat == (n + m - 1) as nat);
    assert(w == bnm * pp);
    lemma_bpow_add((n + m - 1) as nat, (n - m) as nat);
    assert((n + m - 1) as nat + (n - m) as nat == (2 * n - 1) as nat);
    assert(w2 == w * bnm);
    lemma_bpow_add(n, (2 * m - 1) as nat);
    lemma_bpow_add(m, (n + m - 1) as nat);
    assert(n + (2 * m - 1) as nat == m + (n + m - 1) as nat);
    assert(bn * pp == bm * w);
    lemma_bpow_add((n + m - 2) as nat, 1);
    assert((n + m - 2) as nat + 1 == (n + m - 1) as nat);
    assert(bpow(1) == base()) by {
        lemma_bpow_add(0, 1);
    }
    let w1 = bpow((n + m - 2) as nat) as int;
    assert(w == w1 * b);
    let vi = v as int;
    let ai = aa as int;
    let t1 = ai * vi;
    let e = t1 - w;
    assert(e == invert_error(a, v, m, n));
    let ae = if e >= 0 { e } else { -e };
    assert(2 * ae <= w);
    assert(t1 > 0);
    // the product's limb count and the over test
    let parts = invert_step_parts(a, v, m, n);
    let tl1 = parts.0;
    if t1 >= w {
        assert(tl1 == n + m);
        lemma_fundamental_div_mod_converse(t1, w, 1, t1 - w);
        assert(parts.1);
    } else {
        assert(tl1 == (n + m - 1) as nat);
        assert(t1 >= 2 * w1) by (nonlinear_arith)
            requires
                2 * (w - t1) <= w,
                w == w1 * b,
                b == 0x1_0000_0000_0000_0000,
                w1 > 0,
        ;
        lemma_div_is_ordered(2 * w1, t1, w1);
        lemma_div_multiples_vanish(2, w1);
        assert(!parts.1);
        lemma_small_mod((w - t1) as nat, w as nat);
    }
    let t2 = if e >= 0 { e } else { -e };
    assert(t2 == ae);
    // the correction: 2^(64 (2m-1)) c lies in (|E| v - 2^(64 m) v - P, |E| v]
    let t3 = ae / bm;
    lemma_fundamental_div_mod(ae, bm);
    lemma_mod_bound(ae, bm);
    lemma_div_pos_is_pos(ae, bm);
    let t4 = t3 * vi;
    let c = t4 / bm1;
    lemma_fundamental_div_mod(t4, bm1);
    lemma_mod_bound(t4, bm1);
    assert(t4 >= 0) by (nonlinear_arith)
        requires
            t3 >= 0,
            vi >= 0,
            t4 == t3 * vi,
    ;
    lemma_div_pos_is_pos(t4, bm1);
    assert(pp * c <= ae * vi && pp * c > ae * vi - bm * vi - pp) by (nonlinear_arith)
        requires
            ae == bm * t3 + ae % bm,
            0 <= ae % bm < bm,
            t4 == t3 * vi,
            t4 == bm1 * c + t4 % bm1,
            0 <= t4 % bm1 < bm1,
            pp == bm * bm1,
            vi >= 0,
            bm > 0,
            bm1 > 0,
    {
        assert(bm * t3 * vi <= ae * vi);
        assert(pp * c == bm * (bm1 * c));
        assert(bm * (bm1 * c) <= bm * t4);
        assert(bm * t3 > ae - bm);
        assert(bm * t4 == (bm * t3) * vi);
        assert(bm * t4 >= (ae - bm) * vi);
        assert(bm * (bm1 * c) > bm * t4 - bm * bm1);
    }
    assert(vi > 0 && ai > 0) by (nonlinear_arith)
        requires
            t1 == ai * vi,
            t1 > 0,
            ai >= 0,
            vi >= 0,
    ;
    lemma_mul_strictly_positive(bm, bm1);
    let moved = vi * bnm;
    assert(ai * moved * pp == w2 * pp + e * w) by (nonlinear_arith)
        requires
            moved == vi * bnm,
            t1 == ai * vi,
            e == t1 - w,
            w == bnm * pp,
            w2 == w * bnm,
    {
        assert(ai * moved * pp == t1 * (bnm * pp));
    }
    assert(ai * vi == w + e);
    // c below the moved x when over
    assert(c < moved) by (nonlinear_arith)
        requires
            pp * c <= ae * vi,
            2 * ae <= w,
            w == bnm * pp,
            moved == vi * bnm,
            vi > 0,
            pp > 0,
            w > 0,
            ae >= 0,
    {
        assert(ae * vi < w * vi);
        assert(pp * c < pp * moved);
    }
    assert(c == parts.2);
    assert(moved == parts.4);
    // the limb count of the correction stays within n
    assert(ae < w);
    lemma_limb_len_below(ae as nat, (n + m - 1) as nat);
    assert(limb_len(t2 as nat) <= n + m - 1);
    assert(parts.3 <= n);
    assert(invert_step_ok(a, v, m, n));
    let st = invert_step_state(a, v, m, n);
    let x2 = st.0 as int;
    let e2 = ai * x2 - w2;
    assert(e2 == invert_error(a, st.0, n, n)) by {
        assert((n + n - 1) as nat == (2 * n - 1) as nat);
    }
    let ae2 = if e2 >= 0 { e2 } else { -e2 };
    let xx = ai * (pp * c);
    assert(xx <= ai * (ae * vi)) by (nonlinear_arith)
        requires
            xx == ai * (pp * c),
            pp * c <= ae * vi,
            ai >= 0,
    ;
    assert(xx >= ai * (ae * vi) - ai * (bm * vi) - ai * pp) by (nonlinear_arith)
        requires
            xx == ai * (pp * c),
            pp * c > ae * vi - bm * vi - pp,
            ai >= 0,
    ;
    assert(ai * (ae * vi) == ae * (w + e)) by (nonlinear_arith)
        requires
            ai * vi == w + e,
    ;
    assert(ai * (bm * vi) == bm * w + bm * e) by (nonlinear_arith)
        requires
            ai * vi == w + e,
    ;
    assert(ai * pp <= bn * pp) by (nonlinear_arith)
        requires
            ai < bn,
            pp > 0,
    ;
    assert(ae * (w + e) == ae * w + ae * e) by (nonlinear_arith);
    if e >= 0 {
        assert(x2 == moved - c);
        assert(e2 * pp == e * w - xx) by (nonlinear_arith)
            requires
                x2 == moved - c,
                e2 == ai * x2 - w2,
                ai * moved * pp == w2 * pp + e * w,
                xx == ai * (pp * c),
        ;
        assert(ae * w == e * w && ae * e == e * e);
    } else {
        assert(x2 == moved + c);
        assert(e2 * pp == e * w + xx) by (nonlinear_arith)
            requires
                x2 == moved + c,
                e2 == ai * x2 - w2,
                ai * moved * pp == w2 * pp + e * w,
                xx == ai * (pp * c),
        ;
        assert(ae * w == -(e * w) && ae * e == -(e * e)) by (nonlinear_arith)
            requires
                ae == -e,
        ;
    }
    assert(e * e >= 0) by (nonlinear_arith);
    assert(bm * ae >= 0) by (nonlinear_arith)
        requires
            bm > 0,
            ae >= 0,
    ;
    assert(bm * e == (if e >= 0 { bm * ae } else { -(bm * ae) })) by (nonlinear_arith)
        requires
            ae == (if e >= 0 { e } else { -e }),
    ;
    let lo = -(e * e) - bn * pp - bn * pp;
    let hi = -(e * e) + bn * pp + bn * pp + bm * ae;
    assert(lo <= e2 * pp <= hi);
    assert(ae2 * pp <= e * e + 2 * bn * pp + bm * ae) by (nonlinear_arith)
        requires
            ae2 == (if e2 >= 0 { e2 } else { -e2 }),
            lo <= e2 * pp <= hi,
            lo == -(e * e) - bn * pp - bn * pp,
            hi == -(e * e) + bn * pp + bn * pp + bm * ae,
            e * e >= 0,
            bm * ae >= 0,
    ;
}

/// Whether two integers have the same value, whatever their limb counts.
fn same_value(x: &Integer, y: &Integer) -> (b: bool)
    ensures
        b == (x@ == y@),
{
    let xl = x.limbs.len();
    let yl = y.limbs.len();
    let n = if xl >= yl { xl } else { yl };
    let ghost px = x.limbs@ + Seq::new((n - xl) as nat, |i: int| 0u64);
    let ghost py = y.limbs@ + Seq::new((n - yl) as nat, |i: int| 0u64);
    proof {
        lemma_value_concat(x.limbs@, Seq::new((n - xl) as nat, |i: int| 0u64));
        lemma_value_concat(y.limbs@, Seq::new((n - yl) as nat, |i: int| 0u64));
        lemma_value_zero(Seq::new((n - xl) as nat, |i: int| 0u64));
        lemma_value_zero(Seq::new((n - yl) as nat, |i: int| 0u64));
        assert(limbs_value(px) == x@);
        assert(limbs_value(py) == y@);
    }
    let mut i: usize = 0;
    while i < n
        invariant
            i <= n,
            n == px.len(),
            n == py.len(),
            xl == x.limbs@.len(),
            yl == y.limbs@.len(),
            px == x.limbs@ + Seq::new((n - xl) as nat, |i: int| 0u64),
            py == y.limbs@ + Seq::new((n - yl) as nat, |i: int| 0u64),
            limbs_value(px) == x@,
            limbs_value(py) == y@,
            forall|j: int| 0 <= j < i ==> px[j] == py[j],
        decreases n - i,
    {
        let xi = if i < xl { x.limbs[i] } else { 0 };
        let yi = if i < yl { y.limbs[i] } else { 0 };
        proof {
            assert(px[i as int] == xi);
            assert(py[i as int] == yi);
        }
        if xi != yi {
            proof {
                if x@ == y@ {
                    lemma_limbs_determined(px, py);
                }
            }
            return false;
        }
        i += 1;
    }
    proof {
        assert(px =~= py);
    }
    true
}

/// `x` (value `v`, `m` limbs) is within `2^-k` of the reciprocal at step `n`:
/// `|a_n v - W| 2^k <= W` for `W = 2^(64 (n + m - 1))`.
pub open spec fn invert_close(a: Seq<u64>, v: nat, m: nat, n: nat, k: nat) -> bool {
    let e = invert_error(a, v, m, n);
    (if e >= 0 { e } else { -e }) * (pow2(k) as int) <= bpow((n + m - 1) as nat) as int
}

/// The inputs for which `invert` is a reciprocal: at least two limbs asked
/// for and no more than `a` has, the two leading limbs of `a` worth `h` from
/// `2^64 + 5` to `2^128 - 2^66 - 1` (a top limb from 1 to `2^64 - 5`, at
/// least 5 below it when it is 1), and a two-limb seed within `2^-40` of
/// `2^192 / h`: `|seed h - 2^192| 2^40 <= 2^192`.
pub open spec fn invert_inputs_fit(a: Seq<u64>, seed: nat, seed_len: nat, limbs: nat) -> bool {
    let e = (seed * leading_value(a, 2)) as int - pow2(192) as int;
    &&& 2 <= limbs <= a.len()
    &&& 0x1_0000_0000_0000_0005 <= leading_value(a, 2) <= 0xffff_ffff_ffff_fffb_ffff_ffff_ffff_ffff
    &&& seed_len == 2
    &&& (if e >= 0 { e } else { -e }) * (pow2(40) as int) <= pow2(192) as int
}

/// `x` is the reciprocal of `a` at `point` to within `2^-62` of
/// `2^(64 point)`, and one unit of `2^(64 len(a))`:
/// `|x a - 2^(64 point)| 2^62 <= 2^(64 point) + 2^62 2^(64 len(a))`.
pub open spec fn inverse_close(a: Seq<u64>, x: nat, point: nat) -> bool {
    let e = (x * limbs_value(a)) as int - bpow(point) as int;
    (if e >= 0 { e } else { -e }) * (pow2(62) as int)
        <= bpow(point) as int + (pow2(62) as int) * (bpow(a.len()) as int)
}

/// The leading `n2` limbs of `a` hold the leading `n` limbs moved up
/// `n2 - n` limbs, plus less than one unit there.
proof fn lemma_leading_extend(a: Seq<u64>, n: nat, n2: nat)
    requires
        n <= n2 <= a.len(),
    ensures
        leading_value(a, n) * bpow((n2 - n) as nat) <= leading_value(a, n2)
            < (leading_value(a, n) + 1) * bpow((n2 - n) as nat),
{
    let s2 = a.skip(a.len() - n2);
    assert(leading_len(a, n) == n);
    assert(leading_len(a, n2) == n2);
    let k = (n2 - n) as int;
    lemma_value_split(s2, k);
    assert(s2.skip(k) =~= a.skip(a.len() - n));
    lemma_value_bound(s2.take(k));
    let d = bpow(k as nat) as int;
    let lo = limbs_value(s2.take(k)) as int;
    let hi = leading_value(a, n) as int;
    assert(hi * d <= lo + d * hi < (hi + 1) * d) by (nonlinear_arith)
        requires
            0 <= lo < d,
    ;
}

/// Being close at more bits is being close at fewer.
proof fn lemma_close_weaker(a: Seq<u64>, v: nat, m: nat, n: nat, k: nat, j: nat)
    requires
        j <= k,
        invert_close(a, v, m, n, k),
    ensures
        invert_close(a, v, m, n, j),
{
    let e = invert_error(a, v, m, n);
    let ae = if e >= 0 { e } else { -e };
    lemma_pow2_increases(j, k);
    assert(ae * (pow2(j) as int) <= ae * (pow2(k) as int)) by (nonlinear_arith)
        requires
            ae >= 0,
            pow2(j) <= pow2(k),
    ;
}

/// Passing to a finer step `n2 >= n` keeps `x` close, at one bit less: the
/// limbs of `a` below the leading `n` add less than `2^(64 (1 - n))`.
proof fn lemma_close_extend(a: Seq<u64>, v: nat, m: nat, n: nat, n2: nat)
    requires
        2 <= n <= n2 <= a.len(),
        1 <= m,
        v < bpow(m),
        invert_close(a, v, m, n, 40),
    ensures
        invert_close(a, v, m, n2, 39),
{
    // 2^40 2^(64 m) <= W, as n >= 2
    lemma_bpow_add(m, (n - 1) as nat);
    assert(m + (n - 1) as nat == (n + m - 1) as nat);
    lemma_bpow_mono(1, (n - 1) as nat);
    lemma_bpow_pow2(1);
    lemma2_to64();
    lemma_pow2_increases(40, 64);
    lemma_bpow_pos(m);
    assert(pow2(39 + 1) * bpow(m) <= bpow((n + m - 1) as nat)) by (nonlinear_arith)
        requires
            bpow((n + m - 1) as nat) == bpow(m) * bpow((n - 1) as nat),
            bpow((n - 1) as nat) >= pow2(64),
            pow2(64) >= pow2(40),
            bpow(m) > 0,
    ;
    lemma_close_extend_bits(a, v, m, n, n2, 39);
}

/// A step from `x` close at 39 bits, for `a` whose two leading limbs are
/// worth from `2^64 + 5` to `2^128 - 2^66 - 1`, can be taken and leaves `x`
/// with exactly `n` limbs, close at
/// 62 bits.
pub proof fn lemma_invert_step_close(a: Seq<u64>, v: nat, m: nat, n: nat)
    requires
        2 <= n <= a.len(),
        1 <= m <= n,
        0x1_0000_0000_0000_0005 <= leading_value(a, 2) <= 0xffff_ffff_ffff_fffb_ffff_ffff_ffff_ffff,
        invert_close(a, v, m, n, 39),
    ensures
        invert_step_ok(a, v, m, n),
        invert_step_state(a, v, m, n).1 == n,
        invert_step_state(a, v, m, n).0 < bpow(n),
        invert_close(a, invert_step_state(a, v, m, n).0, n, n, 62),
{
    let w = bpow((n + m - 1) as nat) as int;
    let e = invert_error(a, v, m, n);
    let ae = if e >= 0 { e } else { -e };
    lemma2_to64();
    lemma2_to64_rest();
    let p39 = pow2(39) as int;
    lemma_pow2_pos(39);
    assert(2 * ae <= w) by (nonlinear_arith)
        requires
            ae * p39 <= w,
            p39 >= 2,
            ae >= 0,
    ;
    lemma_invert_step_error(a, v, m, n);
    let st = invert_step_state(a, v, m, n);
    let e2 = invert_error(a, st.0, n, n);
    let ae2 = if e2 >= 0 { e2 } else { -e2 };
    let pp = bpow((2 * m - 1) as nat) as int;
    let bn = bpow(n) as int;
    let bm = bpow(m) as int;
    let w2 = bpow((2 * n - 1) as nat) as int;
    assert((n + n - 1) as nat == (2 * n - 1) as nat);
    assert(ae2 * pp <= e * e + 2 * bn * pp + bm * ae);
    // W^2 == W2 P, and 2^63 2^(64 n) <= W2, 2^(64 m) W 2^23 <= W2 P
    lemma_bpow_add((n + m - 1) as nat, (n + m - 1) as nat);
    lemma_bpow_add((2 * n - 1) as nat, (2 * m - 1) as nat);
    assert((n + m - 1) as nat + (n + m - 1) as nat == (2 * n - 1) as nat + (2 * m - 1) as nat);
    assert(w * w == w2 * pp);
    lemma_bpow_add(n, (n - 1) as nat);
    assert(n + (n - 1) as nat == (2 * n - 1) as nat);
    let bn1 = bpow((n - 1) as nat) as int;
    assert(w2 == bn * bn1);
    lemma_bpow_mono(1, (n - 1) as nat);
    lemma_bpow_pow2(1);
    let p64 = pow2(64) as int;
    assert(bn1 >= p64);
    lemma_bpow_add(m, (n + m - 1) as nat);
    lemma_bpow_add(n, (2 * m - 1) as nat);
    assert(m + (n + m - 1) as nat == n + (2 * m - 1) as nat);
    assert(bm * w == bn * pp);
    lemma_bpow_pos((2 * m - 1) as nat);
    lemma_bpow_pos(n);
    lemma_bpow_pos(m);
    lemma_bpow_pos((n + m - 1) as nat);
    let p62 = pow2(62) as int;
    let p23 = pow2(23) as int;
    lemma_pow2_adds(62, 16);
    lemma_pow2_adds(39, 23);
    lemma_pow2_adds(39, 39);
    lemma_pow2_adds(62, 1);
    lemma_pow2_adds(63, 1);
    lemma_pow2_adds(16, 62);
    let p78 = pow2(78) as int;
    assert(p62 == p39 * p23);
    assert(p78 == p39 * p39);
    assert(p78 == pow2(16) as int * p62);
    assert(p64 == 4 * p62);
    assert(pow2(16) as int == 65536);
    assert(p23 == 0x80_0000);
    // E^2 2^78 <= W^2
    assert(e * e * p78 <= w * w) by (nonlinear_arith)
        requires
            ae * p39 <= w,
            ae == (if e >= 0 { e } else { -e }),
            p78 == p39 * p39,
            ae >= 0,
            p39 > 0,
    {
        assert(e * e == ae * ae);
        assert((ae * p39) * (ae * p39) <= w * w);
    }
    // |E'| P 2^62 is at most E^2 2^62 + 2 2^(64 n) P 2^62 + 2^(64 m) |E| 2^62,
    // each a small part of W' P
    let t1 = ae2 * pp * p62;
    let ta = e * e * p62;
    let tb = 2 * bn * pp * p62;
    let tc = bm * ae * p62;
    let wp = w2 * pp;
    assert(t1 <= ta + tb + tc) by (nonlinear_arith)
        requires
            ae2 * pp <= e * e + 2 * bn * pp + bm * ae,
            p62 > 0,
            t1 == ae2 * pp * p62,
            ta == e * e * p62,
            tb == 2 * bn * pp * p62,
            tc == bm * ae * p62,
    ;
    assert(65536 * ta <= wp) by (nonlinear_arith)
        requires
            e * e * p78 <= w * w,
            w * w == w2 * pp,
            p78 == 65536 * p62,
            ta == e * e * p62,
            wp == w2 * pp,
    ;
    assert(2 * tb <= wp) by (nonlinear_arith)
        requires
            w2 == bn * bn1,
            bn1 >= p64,
            p64 == 4 * p62,
            tb == 2 * bn * pp * p62,
            wp == w2 * pp,
            bn > 0,
            pp > 0,
    {
        assert(2 * tb == pp * (bn * p64));
        assert(bn * p64 <= bn * bn1);
    }
    assert(4 * tc <= wp) by (nonlinear_arith)
        requires
            bm * w == bn * pp,
            ae * p39 <= w,
            p62 == p39 * p23,
            p23 == 0x80_0000,
            w2 == bn * bn1,
            bn1 >= p64,
            p64 == 4 * p62,
            p39 > 0,
            bm > 0,
            bn > 0,
            pp > 0,
            ae >= 0,
            tc == bm * ae * p62,
            wp == w2 * pp,
    {
        assert(tc == bm * (ae * p39) * p23);
        assert(bm * (ae * p39) <= bm * w);
        assert(tc <= bn * pp * p23);
        assert(4 * p23 <= p64);
        assert(bn * (4 * p23) <= bn * bn1);
        assert(4 * tc <= pp * (bn * (4 * p23)));
    }
    assert(t1 <= wp);
    assert(ae2 * p62 <= w2) by (nonlinear_arith)
        requires
            t1 == ae2 * pp * p62,
            t1 <= wp,
            wp == w2 * pp,
            pp > 0,
    {
        assert((ae2 * p62) * pp <= w2 * pp);
    }
    // the limb count of the result is n: the two leading limbs `h` put the
    // leading n limbs between h 2^(64 (n - 2)) and (h + 1) 2^(64 (n - 2))
    let parts = invert_step_parts(a, v, m, n);
    lemma_leading_extend(a, 2, n);
    let aa = leading_value(a, n) as int;
    let h = leading_value(a, 2) as int;
    let b2n = bpow((n - 2) as nat) as int;
    let x2 = st.0 as int;
    assert(aa * x2 == w2 + e2);
    lemma_bpow_pos((n - 2) as nat);
    assert(bn1 == b2n * p64) by {
        lemma_bpow_add((n - 2) as nat, 1);
        assert((n - 2) as nat + 1 == (n - 1) as nat);
    }
    assert(bn == bn1 * p64) by {
        lemma_bpow_add((n - 1) as nat, 1);
        assert((n - 1) as nat + 1 == n);
    }
    assert(w2 == bn1 * bn1 * p64) by (nonlinear_arith)
        requires
            w2 == bn * bn1,
            bn == bn1 * p64,
    ;
    assert(p64 == 0x1_0000_0000_0000_0000);
    assert(x2 < bn) by (nonlinear_arith)
        requires
            aa * x2 == w2 + e2,
            h * b2n <= aa,
            h >= 0x1_0000_0000_0000_0005,
            ae2 * p62 <= w2,
            ae2 == (if e2 >= 0 { e2 } else { -e2 }),
            w2 == bn1 * bn1 * p64,
            bn1 == b2n * p64,
            bn == bn1 * p64,
            p64 == 4 * p62,
            p64 == 0x1_0000_0000_0000_0000,
            b2n > 0,
            p62 > 0,
            x2 >= 0,
    {
        if x2 >= bn {
            assert(aa * x2 >= h * b2n * bn);
            assert(b2n * bn == bn1 * bn1);
            assert(h * b2n * bn >= (p64 + 5) * (bn1 * bn1));
            assert(e2 >= 5 * (bn1 * bn1));
            assert(ae2 * p62 >= 5 * (bn1 * bn1) * p62);
            assert(4 * (bn1 * bn1) * p62 == w2);
            assert(bn1 * bn1 > 0);
            assert(ae2 * p62 > w2);
        }
    }
    assert(x2 >= bn1) by (nonlinear_arith)
        requires
            aa * x2 == w2 + e2,
            aa < (h + 1) * b2n,
            h <= 0xffff_ffff_ffff_fffb_ffff_ffff_ffff_ffff,
            ae2 * p62 <= w2,
            ae2 == (if e2 >= 0 { e2 } else { -e2 }),
            w2 == bn1 * bn1 * p64,
            bn1 == b2n * p64,
            p64 == 4 * p62,
            p64 == 0x1_0000_0000_0000_0000,
            b2n > 0,
            p62 > 0,
            x2 >= 0,
    {
        if x2 < bn1 {
            assert(aa * x2 <= aa * bn1);
            assert(aa * bn1 < (h + 1) * b2n * bn1);
            assert(h + 1 <= (p64 - 4) * p64);
            assert((h + 1) * b2n * bn1 <= (p64 - 4) * p64 * b2n * bn1);
            assert((p64 - 4) * p64 * b2n * bn1 == (p64 - 4) * (bn1 * bn1));
            assert(w2 + e2 < w2 - 4 * (bn1 * bn1));
            assert(4 * (bn1 * bn1) * p62 == w2);
            assert(ae2 > 4 * (bn1 * bn1));
        }
    }
    lemma_limb_len_unique(st.0, n);
    if parts.1 {
        assert(st.1 == limb_len(st.0));
    } else {
        assert(parts.3 <= n);
        assert(st.1 == n);
    }
}

/// Passing to a finer step `n2 >= n` keeps `x` close, at one bit less, as
/// long as `2^(j + 1) 2^(64 m) <= W`: the limbs of `a` below the leading `n`
/// add less than `2^(64 m) / W`.
proof fn lemma_close_extend_bits(a: Seq<u64>, v: nat, m: nat, n: nat, n2: nat, j: nat)
    requires
        2 <= n <= n2 <= a.len(),
        1 <= m,
        v < bpow(m),
        invert_close(a, v, m, n, j + 1),
        pow2(j + 1) * bpow(m) <= bpow((n + m - 1) as nat),
    ensures
        invert_close(a, v, m, n2, j),
{
    lemma_leading_extend(a, n, n2);
    let d = bpow((n2 - n) as nat) as int;
    let aa = leading_value(a, n) as int;
    let a2 = leading_value(a, n2) as int;
    let vi = v as int;
    let w = bpow((n + m - 1) as nat) as int;
    let w2 = bpow((n2 + m - 1) as nat) as int;
    lemma_bpow_add((n2 - n) as nat, (n + m - 1) as nat);
    assert((n2 - n) as nat + (n + m - 1) as nat == (n2 + m - 1) as nat);
    assert(w2 == d * w);
    let e = aa * vi - w;
    let e2 = a2 * vi - w2;
    assert(e == invert_error(a, v, m, n));
    assert(e2 == invert_error(a, v, m, n2));
    let bm = bpow(m) as int;
    let pj = pow2(j) as int;
    let pj1 = pow2(j + 1) as int;
    lemma_pow2_adds(j, 1);
    lemma2_to64();
    assert(pj1 == 2 * pj);
    lemma_pow2_pos(j);
    lemma_bpow_pos((n2 - n) as nat);
    let ae = if e >= 0 { e } else { -e };
    let ae2 = if e2 >= 0 { e2 } else { -e2 };
    assert(ae * pj1 <= w);
    assert(ae2 * pj <= w2) by (nonlinear_arith)
        requires
            aa * d <= a2 < (aa + 1) * d,
            e == aa * vi - w,
            e2 == a2 * vi - w2,
            w2 == d * w,
            ae == (if e >= 0 { e } else { -e }),
            ae2 == (if e2 >= 0 { e2 } else { -e2 }),
            ae * pj1 <= w,
            pj1 * bm <= w,
            pj1 == 2 * pj,
            0 <= vi < bm,
            d > 0,
            pj > 0,
    {
        assert(e2 == d * e + (a2 - aa * d) * vi);
        assert(0 <= (a2 - aa * d) * vi <= d * bm);
        assert(ae2 <= d * ae + d * bm);
        assert(ae2 * pj <= d * (ae * pj) + d * (bm * pj));
        assert(2 * (ae * pj) <= w);
        assert(2 * (bm * pj) <= w);
    }
}

/// A step from `x` close at `k >= 39` bits (for `a` as in
/// `lemma_invert_step_close`) squares the closeness, up to the precision of
/// its `n` limbs: `x` leaves close at `min(2 k, 64 (n - 1)) - 2` bits.
proof fn lemma_invert_step_precise(a: Seq<u64>, v: nat, m: nat, n: nat, k: nat)
    requires
        2 <= n <= a.len(),
        1 <= m <= n,
        0x1_0000_0000_0000_0005 <= leading_value(a, 2) <= 0xffff_ffff_ffff_fffb_ffff_ffff_ffff_ffff,
        k >= 39,
        invert_close(a, v, m, n, k),
    ensures
        invert_step_ok(a, v, m, n),
        invert_step_state(a, v, m, n).1 == n,
        invert_step_state(a, v, m, n).0 < bpow(n),
        invert_close(
            a,
            invert_step_state(a, v, m, n).0,
            n,
            n,
            ((if 2 * k < 64 * (n - 1) { (2 * k) as int } else { 64 * (n - 1) }) - 2) as nat,
        ),
{
    lemma_close_weaker(a, v, m, n, k, 39);
    lemma_invert_step_close(a, v, m, n);
    let o = ((if 2 * k < 64 * (n - 1) { (2 * k) as int } else { 64 * (n - 1) }) - 2) as nat;
    let w = bpow((n + m - 1) as nat) as int;
    let e = invert_error(a, v, m, n);
    let ae = if e >= 0 { e } else { -e };
    let qk = pow2(k) as int;
    lemma_pow2_pos(k);
    lemma2_to64();
    assert(qk >= 1) by {
        lemma_pow2_increases(0, k);
    }
    lemma_pow2_increases(1, k);
    assert(2 * ae <= w) by (nonlinear_arith)
        requires
            ae * qk <= w,
            qk >= 2,
            ae >= 0,
    ;
    lemma_invert_step_error(a, v, m, n);
    let st = invert_step_state(a, v, m, n);
    let e2 = invert_error(a, st.0, n, n);
    let ae2 = if e2 >= 0 { e2 } else { -e2 };
    let pp = bpow((2 * m - 1) as nat) as int;
    let bn = bpow(n) as int;
    let bm = bpow(m) as int;
    let bn1 = bpow((n - 1) as nat) as int;
    let w2 = bpow((2 * n - 1) as nat) as int;
    assert((n + n - 1) as nat == (2 * n - 1) as nat);
    assert(ae2 * pp <= e * e + 2 * bn * pp + bm * ae);
    lemma_bpow_add((n + m - 1) as nat, (n + m - 1) as nat);
    lemma_bpow_add((2 * n - 1) as nat, (2 * m - 1) as nat);
    assert((n + m - 1) as nat + (n + m - 1) as nat == (2 * n - 1) as nat + (2 * m - 1) as nat);
    assert(w * w == w2 * pp);
    lemma_bpow_add(n, (n - 1) as nat);
    assert(n + (n - 1) as nat == (2 * n - 1) as nat);
    assert(w2 == bn * bn1);
    lemma_bpow_add(m, (n + m - 1) as nat);
    lemma_bpow_add(n, (2 * m - 1) as nat);
    assert(m + (n + m - 1) as nat == n + (2 * m - 1) as nat);
    assert(bm * w == bn * pp);
    lemma_bpow_pos((2 * m - 1) as nat);
    lemma_bpow_pos(n);
    lemma_bpow_pos(m);
    // 4 2^o <= 2^(2 k) and 4 2^o <= 2^(64 (n - 1))
    let q = pow2(o) as int;
    lemma_pow2_pos(o);
    lemma_pow2_adds(o, 2);
    lemma_pow2_adds(k, k);
    lemma_pow2_increases(o + 2, k + k);
    lemma_pow2_increases(o + 2, 64 * (n - 1) as nat);
    lemma_bpow_pow2((n - 1) as nat);
    assert(pow2(2) == 4);
    assert(4 * q <= qk * qk);
    assert(4 * q <= bn1);
    let t1 = ae2 * pp * q;
    assert(4 * t1 <= 4 * (e * e * q) + 4 * (2 * bn * pp * q) + 4 * (bm * ae * q)) by (nonlinear_arith)
        requires
            ae2 * pp <= e * e + 2 * bn * pp + bm * ae,
            q > 0,
            t1 == ae2 * pp * q,
    ;
    assert(4 * (e * e * q) <= w2 * pp) by (nonlinear_arith)
        requires
            ae * qk <= w,
            ae == (if e >= 0 { e } else { -e }),
            4 * q <= qk * qk,
            w * w == w2 * pp,
            ae >= 0,
            qk > 0,
            q > 0,
    {
        assert(e * e == ae * ae);
        assert((ae * qk) * (ae * qk) <= w * w);
        assert(ae * ae * (4 * q) <= ae * ae * (qk * qk));
    }
    assert(4 * (2 * bn * pp * q) <= 2 * (w2 * pp)) by (nonlinear_arith)
        requires
            4 * q <= bn1,
            w2 == bn * bn1,
            bn > 0,
            pp > 0,
    {
        assert(bn * (4 * q) <= bn * bn1);
    }
    assert(4 * (bm * ae * q) <= w2 * pp) by (nonlinear_arith)
        requires
            ae * qk <= w,
            qk >= 1,
            4 * q <= bn1,
            bm * w == bn * pp,
            w2 == bn * bn1,
            bm > 0,
            ae >= 0,
            bn > 0,
            pp > 0,
            q > 0,
    {
        assert(ae <= ae * qk);
        assert(bm * ae <= bm * w);
        assert(bm * ae * (4 * q) <= (bn * pp) * bn1);
    }
    assert(ae2 * q <= w2) by (nonlinear_arith)
        requires
            4 * t1 <= 4 * (w2 * pp),
            t1 == ae2 * pp * q,
            pp > 0,
    {
        assert((ae2 * q) * pp <= w2 * pp);
    }
}

/// Running a step `x` before (coarser than) the steps `rest` is running
/// `rest` and then the step `x`.
proof fn lemma_invert_run_prepend(a: Seq<u64>, v: nat, len: nat, x: nat, rest: Seq<nat>)
    ensures
        ({
            let r = invert_run(a, v, len, rest);
            &&& invert_run(a, v, len, seq![x] + rest) == invert_step_state(a, r.0, r.1, x)
            &&& invert_runs(a, v, len, seq![x] + rest)
                == (invert_runs(a, v, len, rest) && invert_step_ok(a, r.0, r.1, x))
        }),
    decreases rest.len(),
{
    let t = seq![x] + rest;
    if rest.len() == 0 {
        let sx = invert_step_state(a, v, len, x);
        assert(t.last() == x);
        assert(t.drop_last() =~= Seq::<nat>::empty());
        assert(invert_run(a, v, len, t) == invert_run(a, sx.0, sx.1, t.drop_last()));
        assert(invert_run(a, sx.0, sx.1, t.drop_last()) == sx);
        assert(invert_runs(a, v, len, t) == (invert_step_ok(a, v, len, x) && invert_runs(a, sx.0, sx.1, t.drop_last())));
        assert(invert_runs(a, sx.0, sx.1, t.drop_last()));
        assert(invert_run(a, v, len, rest) == (v, len));
        assert(invert_runs(a, v, len, rest));
    } else {
        let st = invert_step_state(a, v, len, rest.last());
        assert(t.last() == rest.last());
        assert(t.drop_last() =~= seq![x] + rest.drop_last());
        lemma_invert_run_prepend(a, st.0, st.1, x, rest.drop_last());
        assert(invert_run(a, v, len, t) == invert_run(a, st.0, st.1, t.drop_last()));
        assert(invert_run(a, v, len, rest) == invert_run(a, st.0, st.1, rest.drop_last()));
        assert(invert_runs(a, v, len, t) == (invert_step_ok(a, v, len, rest.last()) && invert_runs(a, st.0, st.1, t.drop_last())));
        assert(invert_runs(a, v, len, rest) == (invert_step_ok(a, v, len, rest.last()) && invert_runs(a, st.0, st.1, rest.drop_last())));
    }
}

/// The input closeness a Newton step of `bits` bits is given: 39 bits, or
/// `2 bits / 5 + 6` where that is more.
spec fn invert_need(bits: nat) -> nat {
    if (2 * bits) / 5 + 6 > 39 {
        (2 * bits) / 5 + 6
    } else {
        39
    }
}

/// The steps of `invert_lens(bits, limbs)`, from a seed close at 40 bits at
/// two limbs, can all be taken, and leave `x` with as many limbs as the
/// finest step `n`, close at `min(2 invert_need(bits), 64 (n - 1)) - 2`
/// bits: each step about doubles the closeness of the one before.
proof fn lemma_invert_schedule(a: Seq<u64>, v: nat, bits: nat, limbs: nat)
    requires
        2 <= limbs <= a.len(),
        40 < bits <= 64 * limbs,
        0x1_0000_0000_0000_0005 <= leading_value(a, 2) <= 0xffff_ffff_ffff_fffb_ffff_ffff_ffff_ffff,
        v < bpow(2),
        invert_close(a, v, 2, 2, 40),
    ensures
        ({
            let lens = invert_lens(bits, limbs);
            let n = lens[0];
            let r = invert_run(a, v, 2, lens);
            &&& invert_runs(a, v, 2, lens)
            &&& r.1 == n
            &&& r.0 < bpow(n)
            &&& invert_close(
                a,
                r.0,
                n,
                n,
                ((if 2 * invert_need(bits) < 64 * (n - 1) { (2 * invert_need(bits)) as int } else { 64 * (n - 1) }) - 2) as nat,
            )
        }),
    decreases bits,
{
    let lens = invert_lens(bits, limbs);
    let b2 = ((bits + 1) / 2) as nat;
    let rest = invert_lens(b2, limbs);
    let n = if (bits + 127) / 64 < limbs { ((bits + 127) / 64) as nat } else { limbs };
    assert(lens == seq![n] + rest);
    assert(lens[0] == n);
    assert(n >= 2);
    lemma_invert_run_prepend(a, v, 2, n, rest);
    let r0 = invert_run(a, v, 2, rest);
    lemma2_to64();
    if b2 <= 40 {
        // the first step: the seed moved to `n` limbs, close at 39
        assert(rest =~= Seq::<nat>::empty());
        assert(r0 == (v, 2nat));
        lemma_pow2_adds(40, 64 * 2);
        lemma_bpow_pow2(2);
        lemma_bpow_pow2(3);
        lemma_pow2_increases(40 + 128, 192);
        assert(pow2(39 + 1) * bpow(2) <= bpow((2 + 2 - 1) as nat));
        lemma_close_extend_bits(a, v, 2, 2, n, 39);
        assert(invert_need(bits) == 39);
        lemma_invert_step_precise(a, v, 2, n, 39);
    } else {
        lemma_invert_schedule(a, v, b2, limbs);
        let n1 = rest[0];
        assert(n1 == (if (b2 + 127) / 64 < limbs { ((b2 + 127) / 64) as nat } else { limbs }));
        // the coarser step is not capped, and is at most `n`
        assert((b2 + 127) / 64 <= limbs);
        assert(n1 == (b2 + 127) / 64);
        assert(n1 <= n) by {
            lemma_div_is_ordered((b2 + 127) as int, (bits + 127) as int, 64);
        }
        let o1 = ((if 2 * invert_need(b2) < 64 * (n1 - 1) { (2 * invert_need(b2)) as int } else { 64 * (n1 - 1) }) - 2) as nat;
        assert(invert_close(a, r0.0, n1, n1, o1));
        // moved to `n` limbs, close at `o1 - 1 >= invert_need(bits)`
        let k = (o1 - 1) as nat;
        assert(64 * n1 >= b2 + 64);
        assert(k >= invert_need(bits));
        lemma_bpow_add(n1, (n1 - 1) as nat);
        assert(n1 + (n1 - 1) as nat == (n1 + n1 - 1) as nat);
        lemma_bpow_pow2((n1 - 1) as nat);
        lemma_pow2_increases(k + 1, 64 * (n1 - 1) as nat);
        lemma_bpow_pos(n1);
        assert(pow2(k + 1) * bpow(n1) <= bpow((n1 + n1 - 1) as nat)) by (nonlinear_arith)
            requires
                pow2(k + 1) <= bpow((n1 - 1) as nat),
                bpow((n1 + n1 - 1) as nat) == bpow(n1) * bpow((n1 - 1) as nat),
                bpow(n1) > 0,
        ;
        lemma_close_extend_bits(a, r0.0, n1, n1, n, k);
        lemma_close_weaker(a, r0.0, n1, n, k, invert_need(bits));
        lemma_invert_step_precise(a, r0.0, n1, n, invert_need(bits));
    }
}

/// The step sizes of `invert_lens`: with `limbs >= 2` each is from 2 to
/// `limbs` and none is above the one before it; the first is
/// `min((bits + 127) / 64, limbs)`.
proof fn lemma_invert_lens_shape(bits: nat, limbs: nat)
    requires
        limbs >= 2,
    ensures
        ({
            let lens = invert_lens(bits, limbs);
            let cap = if (bits + 127) / 64 < limbs { (bits + 127) / 64 } else { limbs };
            &&& bits > 40 ==> lens.len() > 0 && lens[0] == cap
            &&& forall|i: int| 0 <= i < lens.len() ==> 2 <= #[trigger] lens[i] <= cap
            &&& forall|i: int| 0 <= i < lens.len() - 1 ==> #[trigger] lens[i + 1] <= lens[i]
        }),
    decreases bits,
{
    if bits > 40 {
        let b2 = ((bits + 1) / 2) as nat;
        lemma_invert_lens_shape(b2, limbs);
        let lens = invert_lens(bits, limbs);
        let rest = invert_lens(b2, limbs);
        let cap = if (bits + 127) / 64 < limbs { (bits + 127) / 64 } else { limbs };
        let cap2 = if (b2 + 127) / 64 < limbs { (b2 + 127) / 64 } else { limbs };
        assert((b2 + 127) / 64 <= (bits + 127) / 64) by {
            lemma_div_is_ordered((b2 + 127) as int, (bits + 127) as int, 64);
        }
        assert(lens =~= seq![cap] + rest);
        assert forall|i: int| 0 <= i < lens.len() implies 2 <= #[trigger] lens[i] <= cap by {
            if i > 0 {
                assert(lens[i] == rest[i - 1]);
            }
        }
        assert forall|i: int| 0 <= i < lens.len() - 1 implies #[trigger] lens[i + 1] <= lens[i] by {
            assert(lens[i + 1] == rest[i]);
            if i > 0 {
                assert(lens[i] == rest[i - 1]);
                assert(rest[(i - 1) + 1] <= rest[i - 1]);
            }
        }
    }
}

/// Newton steps of sizes `lens` (the last one first, each from 2 to
/// `len(a)`, none above the one before it), from `x` (value `v`, `m` limbs,
/// `1 <= m <=` the first step) close at 39 bits, can all be taken, and leave
/// `x` with as many limbs as the last step, close at 62 bits there.
proof fn lemma_invert_chain(a: Seq<u64>, v: nat, m: nat, lens: Seq<nat>)
    requires
        lens.len() > 0,
        forall|i: int| 0 <= i < lens.len() ==> 2 <= #[trigger] lens[i] <= a.len(),
        forall|i: int| 0 <= i < lens.len() - 1 ==> #[trigger] lens[i + 1] <= lens[i],
        1 <= m <= lens.last(),
        0x1_0000_0000_0000_0005 <= leading_value(a, 2) <= 0xffff_ffff_ffff_fffb_ffff_ffff_ffff_ffff,
        invert_close(a, v, m, lens.last(), 39),
    ensures
        invert_runs(a, v, m, lens),
        invert_run(a, v, m, lens).1 == lens[0],
        invert_run(a, v, m, lens).0 < bpow(lens[0]),
        invert_close(a, invert_run(a, v, m, lens).0, lens[0], lens[0], 62),
    decreases lens.len(),
{
    let n = lens.last();
    assert(2 <= lens[lens.len() - 1] <= a.len());
    lemma_invert_step_close(a, v, m, n);
    let st = invert_step_state(a, v, m, n);
    let rest = lens.drop_last();
    assert(invert_runs(a, v, m, lens) == invert_runs(a, st.0, st.1, rest));
    assert(invert_run(a, v, m, lens) == invert_run(a, st.0, st.1, rest));
    if lens.len() == 1 {
        assert(rest.len() == 0);
        assert(lens[0] == n);
        assert(invert_runs(a, st.0, st.1, rest));
        assert(invert_run(a, st.0, st.1, rest) == st);
    } else {
        let n2 = rest.last();
        assert(n2 == lens[lens.len() - 2]);
        assert(lens[(lens.len() - 2) + 1] <= lens[lens.len() - 2]);
        assert(2 <= lens[lens.len() - 2] <= a.len());
        lemma_close_weaker(a, st.0, n, n, 62, 40);
        lemma_close_extend(a, st.0, n, n, n2);
        assert forall|i: int| 0 <= i < rest.len() implies 2 <= #[trigger] rest[i] <= a.len() by {
            assert(rest[i] == lens[i]);
        }
        assert forall|i: int| 0 <= i < rest.len() - 1 implies #[trigger] rest[i + 1] <= rest[i] by {
            assert(rest[i + 1] == lens[i + 1]);
            assert(rest[i] == lens[i]);
        }
        lemma_invert_chain(a, st.0, n, rest);
        assert(rest[0] == lens[0]);
    }
}

/// The reciprocal law: for inputs that fit (`invert_inputs_fit`) and a seed
/// below `2^(64 seed_len)`, every Newton step of `invert` can be taken, and
/// the result `x`, read against the point `len(a) + limbs - 1`, is the
/// reciprocal of `a` to 62 bits and one unit of `2^(64 len(a))`
/// (`inverse_close`).
pub proof fn lemma_invert_inputs_fit(a: Seq<u64>, seed: nat, seed_len: nat, limbs: nat)
    requires
        invert_inputs_fit(a, seed, seed_len, limbs),
        seed < bpow(seed_len),
    ensures
        invert_runs(a, seed, seed_len, invert_lens(64 * limbs, limbs)),
        inverse_close(
            a,
            invert_run(a, seed, seed_len, invert_lens(64 * limbs, limbs)).0,
            (a.len() + limbs - 1) as nat,
        ),
{
    let lens = invert_lens(64 * limbs, limbs);
    lemma_invert_lens_shape(64 * limbs, limbs);
    assert((64 * limbs + 127) / 64 == limbs + 1);
    let first = lens.last();
    assert(2 <= lens[lens.len() - 1] <= limbs);
    // the seed is close at 40 bits at step 2, then at 39 at the first step
    lemma_bpow_pow2(3);
    lemma_bpow_pow2(2);
    assert((2 + 2 - 1) as nat == 3nat);
    assert(leading_value(a, 2) * seed == seed * leading_value(a, 2)) by {
        lemma_mul_is_commutative(leading_value(a, 2) as int, seed as int);
    }
    assert(invert_error(a, seed, 2, 2) == (seed * leading_value(a, 2)) as int - pow2(192) as int);
    assert(invert_close(a, seed, 2, 2, 40));
    assert(seed < bpow(2));
    lemma_close_extend(a, seed, 2, 2, first);
    assert forall|i: int| 0 <= i < lens.len() implies 2 <= #[trigger] lens[i] <= a.len() by {}
    lemma_invert_chain(a, seed, 2, lens);
    let run = invert_run(a, seed, seed_len, lens);
    let x = run.0;
    assert(lens[0] == limbs);
    // from the leading `limbs` limbs to all of `a`
    let big_l = a.len();
    lemma_leading_extend(a, limbs, big_l);
    assert(a.skip(0) =~= a);
    assert(leading_value(a, big_l) == limbs_value(a));
    let d = bpow((big_l - limbs) as nat) as int;
    let al = leading_value(a, limbs) as int;
    let aa = limbs_value(a) as int;
    let xi = x as int;
    let w = bpow((2 * limbs - 1) as nat) as int;
    let wp = bpow((big_l + limbs - 1) as nat) as int;
    lemma_bpow_add((big_l - limbs) as nat, (2 * limbs - 1) as nat);
    assert((big_l - limbs) as nat + (2 * limbs - 1) as nat == (big_l + limbs - 1) as nat);
    assert((limbs + limbs - 1) as nat == (2 * limbs - 1) as nat);
    assert(wp == d * w);
    lemma_bpow_add((big_l - limbs) as nat, limbs);
    assert((big_l - limbs) as nat + limbs == big_l);
    let bl = bpow(big_l) as int;
    let bn = bpow(limbs) as int;
    assert(bl == d * bn);
    lemma_bpow_pos((big_l - limbs) as nat);
    lemma2_to64();
    lemma2_to64_rest();
    let p62 = pow2(62) as int;
    let e = al * xi - w;
    assert(e == invert_error(a, x, limbs, limbs));
    let ae = if e >= 0 { e } else { -e };
    assert(ae * p62 <= w);
    let ef = xi * aa - wp;
    let aef = if ef >= 0 { ef } else { -ef };
    assert(aef * p62 <= wp + p62 * bl) by (nonlinear_arith)
        requires
            al * d <= aa < (al + 1) * d,
            e == al * xi - w,
            ef == xi * aa - wp,
            wp == d * w,
            bl == d * bn,
            ae == (if e >= 0 { e } else { -e }),
            aef == (if ef >= 0 { ef } else { -ef }),
            ae * p62 <= w,
            0 <= xi < bn,
            d > 0,
            p62 > 0,
    {
        assert(ef == d * e + (aa - al * d) * xi);
        assert(0 <= (aa - al * d) * xi <= d * bn);
        assert(aef <= d * ae + d * bn);
        assert(aef * p62 <= d * (ae * p62) + p62 * (d * bn));
        assert(d * (ae * p62) <= d * w);
    }
}

/// `x` is the reciprocal of `a` at `point` to within `2^-k` of
/// `2^(64 point)`, and one unit of `2^(64 len(a))`:
/// `|x a - 2^(64 point)| 2^k <= 2^(64 point) + 2^k 2^(64 len(a))`.
pub open spec fn inverse_close_bits(a: Seq<u64>, x: nat, point: nat, k: nat) -> bool {
    let e = (x * limbs_value(a)) as int - bpow(point) as int;
    (if e >= 0 { e } else { -e }) * (pow2(k) as int)
        <= bpow(point) as int + (pow2(k) as int) * (bpow(a.len()) as int)
}

/// From `x` close at `k` bits to the `limbs` leading limbs of `a` (at `m = n
/// = limbs`), `x` is the reciprocal of all of `a` at the point
/// `len(a) + limbs - 1`, to `k` bits and one unit of `2^(64 len(a))`.
proof fn lemma_inverse_from_leading(a: Seq<u64>, x: nat, limbs: nat, k: nat)
    requires
        2 <= limbs <= a.len(),
        x < bpow(limbs),
        invert_close(a, x, limbs, limbs, k),
    ensures
        inverse_close_bits(a, x, (a.len() + limbs - 1) as nat, k),
{
    let big_l = a.len();
    lemma_leading_extend(a, limbs, big_l);
    assert(a.skip(0) =~= a);
    assert(leading_value(a, big_l) == limbs_value(a));
    let d = bpow((big_l - limbs) as nat) as int;
    let al = leading_value(a, limbs) as int;
    let aa = limbs_value(a) as int;
    let xi = x as int;
    let w = bpow((2 * limbs - 1) as nat) as int;
    let wp = bpow((big_l + limbs - 1) as nat) as int;
    lemma_bpow_add((big_l - limbs) as nat, (2 * limbs - 1) as nat);
    assert((big_l - limbs) as nat + (2 * limbs - 1) as nat == (big_l + limbs - 1) as nat);
    assert((limbs + limbs - 1) as nat == (2 * limbs - 1) as nat);
    assert(wp == d * w);
    lemma_bpow_add((big_l - limbs) as nat, limbs);
    assert((big_l - limbs) as nat + limbs == big_l);
    let bl = bpow(big_l) as int;
    let bn = bpow(limbs) as int;
    assert(bl == d * bn);
    lemma_bpow_pos((big_l - limbs) as nat);
    let q = pow2(k) as int;
    lemma_pow2_pos(k);
    let e = al * xi - w;
    assert(e == invert_error(a, x, limbs, limbs));
    let ae = if e >= 0 { e } else { -e };
    assert(ae * q <= w);
    let ef = xi * aa - wp;
    let aef = if ef >= 0 { ef } else { -ef };
    assert(aef * q <= wp + q * bl) by (nonlinear_arith)
        requires
            al * d <= aa < (al + 1) * d,
            e == al * xi - w,
            ef == xi * aa - wp,
            wp == d * w,
            bl == d * bn,
            ae == (if e >= 0 { e } else { -e }),
            aef == (if ef >= 0 { ef } else { -ef }),
            ae * q <= w,
            0 <= xi < bn,
            d > 0,
            q > 0,
    {
        assert(ef == d * e + (aa - al * d) * xi);
        assert(0 <= (aa - al * d) * xi <= d * bn);
        assert(aef <= d * ae + d * bn);
        assert(aef * q <= d * (ae * q) + q * (d * bn));
        assert(d * (ae * q) <= d * w);
    }
}

/// The reciprocal law at full precision: for inputs that fit
/// (`invert_inputs_fit`) and a seed below `2^(64 seed_len)`, the result of
/// `invert` to `limbs` limbs is the reciprocal of `a` to `51 limbs - 40`
/// bits (of the `64 limbs` its limbs hold) and one unit of `2^(64 len(a))`:
/// every Newton step about doubles the precision of the one before, up to
/// the limbs asked for.
pub proof fn lemma_invert_precise(a: Seq<u64>, seed: nat, seed_len: nat, limbs: nat)
    requires
        invert_inputs_fit(a, seed, seed_len, limbs),
        seed < bpow(seed_len),
    ensures
        invert_runs(a, seed, seed_len, invert_lens(64 * limbs, limbs)),
        inverse_close_bits(
            a,
            invert_run(a, seed, seed_len, invert_lens(64 * limbs, limbs)).0,
            (a.len() + limbs - 1) as nat,
            (51 * limbs - 40) as nat,
        ),
{
    let lens = invert_lens(64 * limbs, limbs);
    lemma_bpow_pow2(3);
    lemma_bpow_pow2(2);
    assert((2 + 2 - 1) as nat == 3nat);
    assert(leading_value(a, 2) * seed == seed * leading_value(a, 2)) by {
        lemma_mul_is_commutative(leading_value(a, 2) as int, seed as int);
    }
    assert(invert_error(a, seed, 2, 2) == (seed * leading_value(a, 2)) as int - pow2(192) as int);
    assert(invert_close(a, seed, 2, 2, 40));
    assert(seed < bpow(2));
    lemma_invert_schedule(a, seed, 64 * limbs, limbs);
    assert((64 * limbs + 127) / 64 == limbs + 1);
    assert(lens[0] == limbs);
    let run = invert_run(a, seed, seed_len, lens);
    let need = invert_need(64 * limbs);
    assert(need >= (128 * limbs) / 5 + 6);
    let o = ((if 2 * need < 64 * (limbs - 1) { (2 * need) as int } else { 64 * (limbs - 1) }) - 2) as nat;
    assert(o >= 51 * limbs - 40);
    lemma_close_weaker(a, run.0, limbs, limbs, o, (51 * limbs - 40) as nat);
    lemma_inverse_from_leading(a, run.0, limbs, (51 * limbs - 40) as nat);
}

/// One Newton step of the reciprocal of `a` at `n` limbs, as
/// `invert_step_state` describes it, or `None` exactly when the step cannot
/// be taken (`invert_step_ok` fails).
fn invert_step(a: &Integer, x: Integer, n: usize) -> (r: Option<Integer>)
    requires
        4 * n + 8 <= usize::MAX,
    ensures
        r is Some == invert_step_ok(a.limbs@, x@, x.limbs@.len(), n as nat),
        r matches Some(y) ==> (y@, y.limbs@.len()) == invert_step_state(a.limbs@, x@, x.limbs@.len(), n as nat)
            && y.limbs@.len() <= n + 2,
{
    let ghost parts = invert_step_parts(a.limbs@, x@, x.limbs@.len(), n as nat);
    let mut x = x;
    let m = x.len();
    if m == 0 || m > n {
        return None;
    }
    let mut t = a.get_leading(n);
    proof {
        assert(t.limbs@.len() == leading_len(a.limbs@, n as nat));
        assert(t@ == leading_value(a.limbs@, n as nat));
    }
    t.mul_assign(&x);
    let tl = t.len();
    if tl == 0 {
        return None;
    }
    proof {
        assert(tl == parts.0);
        lemma_top_limb(t.limbs@);
    }
    let is_over = t.limbs[tl - 1] == 1;
    let ghost t1 = t@;
    proof {
        assert(tl <= 2 * n);
    }
    if is_over {
        let ghost before = t.limbs@;
        let _ = t.limbs.pop();
        proof {
            assert(t.limbs@ =~= before.drop_last());
            lemma_top_limb(before);
        }
        t.trim_top_zeros();
        proof {
            lemma_bpow_pos((tl - 1) as nat);
            lemma_value_bound(before.drop_last());
            lemma_limb_len_below(t@, (tl - 1) as nat);
        }
    } else {
        t.negate();
        proof {
            lemma_bpow_pos(tl as nat);
            lemma_limb_len_below(t@, tl as nat);
        }
    }
    proof {
        assert(is_over == parts.1);
        assert(t.limbs@.len() <= tl);
        assert(t.limbs@.len() == limb_len(t@));
    }
    t.shift_down_limbs(m);
    t.mul_assign(&x);
    proof {
        assert(t.limbs@.len() <= n + m);
    }
    x.shift_up_limbs(n - m);
    t.shift_down_limbs(m - 1);
    proof {
        assert(t.limbs@.len() == parts.3);
        assert(t.limbs@.len() <= n + 1);
        assert(t@ == parts.2);
        assert(x@ == parts.4);
        lemma_value_bound(x.limbs@);
    }
    if is_over {
        if t.len() > n || same_value(&x, &t) {
            return None;
        }
        x.sub_assign(&t);
        proof {
            lemma_value_bound(t.limbs@);
            lemma_bpow_mono(t.limbs@.len() as nat, n as nat);
            lemma_limb_len_below(x@, n as nat);
        }
    } else {
        x.add_assign(&t);
    }
    Some(x)
}

impl Real {
    /// `invert` where every step can be taken, which is reported: when some
    /// step cannot be (where `invert` would have no result), the real is left
    /// as it was and the answer is `false`. For inputs that fit
    /// (`invert_inputs_fit`) every step can be taken and the result is the
    /// reciprocal to 62 bits (`inverse_close`), and to `51 limbs - 40` bits
    /// (`inverse_close_bits`), most of the `64 limbs` it holds.
    pub fn try_invert(&mut self, limbs: usize, seed: Integer) -> (ok: bool)
        requires
            limbs <= usize::MAX / 1024,
            seed.limbs@.len() <= limbs + 2,
            1 <= old(self).mantissa.limbs@.len() + limbs <= usize::MAX,
        ensures
            ok == invert_runs(
                old(self).mantissa.limbs@,
                seed@,
                seed.limbs@.len(),
                invert_lens(64 * limbs as nat, limbs as nat),
            ),
            ok ==> final(self).point == old(self).mantissa.limbs@.len() + limbs - 1,
            ok ==> (final(self).mantissa@, final(self).mantissa.limbs@.len()) == invert_run(
                old(self).mantissa.limbs@,
                seed@,
                seed.limbs@.len(),
                invert_lens(64 * limbs as nat, limbs as nat),
            ),
            !ok ==> *final(self) == *old(self),
            invert_inputs_fit(old(self).mantissa.limbs@, seed@, seed.limbs@.len() as nat, limbs as nat) ==> ok
                && inverse_close(old(self).mantissa.limbs@, final(self).mantissa@, final(self).point as nat)
                && inverse_close_bits(
                    old(self).mantissa.limbs@,
                    final(self).mantissa@,
                    final(self).point as nat,
                    (51 * limbs - 40) as nat,
                ),
    {
        let ghost total = invert_lens(64 * limbs as nat, limbs as nat);
        let mut bits: usize = limbs * 64;
        let mut lens: Vec<usize> = Vec::new();
        while bits > 40
            invariant
                bits <= 64 * limbs,
                limbs <= usize::MAX / 1024,
                total == invert_lens(64 * limbs as nat, limbs as nat),
                total == lens@.map_values(|v: usize| v as nat) + invert_lens(bits as nat, limbs as nat),
            decreases bits,
        {
            let len = (bits + 127) / 64;
            let step = if len < limbs { len } else { limbs };
            let ghost before = lens@.map_values(|v: usize| v as nat);
            lens.push(step);
            proof {
                assert(lens@.map_values(|v: usize| v as nat) =~= before.push(step as nat));
                assert(invert_lens(bits as nat, limbs as nat) =~= seq![step as nat] + invert_lens(((bits + 1) / 2) as nat, limbs as nat));
                assert(before + invert_lens(bits as nat, limbs as nat) =~= before.push(step as nat) + invert_lens(((bits + 1) / 2) as nat, limbs as nat));
            }
            bits = (bits + 1) / 2;
        }
        proof {
            assert(invert_lens(bits as nat, limbs as nat) =~= Seq::<nat>::empty());
            assert(total =~= lens@.map_values(|v: usize| v as nat));
            lemma_invert_lens(64 * limbs as nat, limbs as nat);
            assert(total.take(total.len() as int) =~= total);
        }
        let a = &self.mantissa;
        let mut x = seed;
        let ghost x0 = x@;
        let ghost l0 = x.limbs@.len();
        proof {
            lemma_value_bound(x.limbs@);
        }
        let mut i = lens.len();
        while i > 0
            invariant
                i <= lens@.len(),
                lens@.len() == total.len(),
                total == lens@.map_values(|v: usize| v as nat),
                forall|j: int| 0 <= j < total.len() ==> #[trigger] total[j] <= limbs,
                limbs <= usize::MAX / 1024,
                x.limbs@.len() <= limbs + 2,
                total == invert_lens(64 * limbs as nat, limbs as nat),
                *self == *old(self),
                a == &self.mantissa,
                x0 == seed@,
                l0 == seed.limbs@.len(),
                x0 < bpow(l0),
                invert_runs(a.limbs@, x0, l0, total) == invert_runs(a.limbs@, x@, x.limbs@.len(), total.take(i as int)),
                invert_run(a.limbs@, x0, l0, total) == invert_run(a.limbs@, x@, x.limbs@.len(), total.take(i as int)),
            decreases i,
        {
            let n = lens[i - 1];
            proof {
                let tk = total.take(i as int);
                assert(total[i - 1] == n as nat);
                assert(tk.last() == n as nat);
                assert(tk.drop_last() =~= total.take(i - 1));
            }
            let ghost xv = x@;
            let ghost xl = x.limbs@.len();
            match invert_step(a, x, n) {
                Some(y) => {
                    x = y;
                },
                None => {
                    proof {
                        let tk = total.take(i as int);
                        assert(tk.len() > 0);
                        assert(!invert_step_ok(a.limbs@, xv, xl, tk.last()));
                        assert(!invert_runs(a.limbs@, xv, xl, tk));
                        if invert_inputs_fit(a.limbs@, x0, l0, limbs as nat) {
                            lemma_invert_inputs_fit(a.limbs@, x0, l0, limbs as nat);
                        }
                    }
                    return false;
                },
            }
            i = i - 1;
        }
        proof {
            assert(total.take(0) =~= Seq::<nat>::empty());
            if invert_inputs_fit(a.limbs@, x0, l0, limbs as nat) {
                lemma_invert_inputs_fit(a.limbs@, x0, l0, limbs as nat);
                lemma_invert_precise(a.limbs@, x0, l0, limbs as nat);
            }
        }
        let point = a.len() + limbs - 1;
        self.mantissa = x;
        self.point = point;
        true
    }

    /// Replace the mantissa `a` by its Newton reciprocal to `limbs` limbs from
    /// `seed` (about `2^192` over the value of the two leading limbs of `a`),
    /// read against
    /// the new point `len(a) + limbs - 1`: the steps of
    /// `invert_lens(64 limbs, limbs)` run from the finest last, as
    /// `invert_run` describes; every step must be possible (`try_invert`
    /// tells whether they are). For inputs that fit (`invert_inputs_fit`, as
    /// a floating-point seed does), the result is the reciprocal to 62 bits
    /// (`inverse_close`) and to `51 limbs - 40` bits (`inverse_close_bits`).
    pub fn invert(&mut self, limbs: usize, seed: Integer)
        requires
            limbs <= usize::MAX / 1024,
            seed.limbs@.len() <= limbs + 2,
            1 <= old(self).mantissa.limbs@.len() + limbs <= usize::MAX,
            invert_runs(
                old(self).mantissa.limbs@,
                seed@,
                seed.limbs@.len(),
                invert_lens(64 * limbs as nat, limbs as nat),
            ),
        ensures
            final(self).point == old(self).mantissa.limbs@.len() + limbs - 1,
            (final(self).mantissa@, final(self).mantissa.limbs@.len()) == invert_run(
                old(self).mantissa.limbs@,
                seed@,
                seed.limbs@.len(),
                invert_lens(64 * limbs as nat, limbs as nat),
            ),
            invert_inputs_fit(old(self).mantissa.limbs@, seed@, seed.limbs@.len() as nat, limbs as nat)
                ==> inverse_close(old(self).mantissa.limbs@, final(self).mantissa@, final(self).point as nat)
                && inverse_close_bits(
                    old(self).mantissa.limbs@,
                    final(self).mantissa@,
                    final(self).point as nat,
                    (51 * limbs - 40) as nat,
                ),
    {
        let _ = self.try_invert(limbs, seed);
    }
}

/// The `point` fraction limbs of `s`, least significant first: the limbs
/// below the point, with zero limbs where `s` has fewer.
pub open spec fn fraction_limbs(s: Seq<u64>, point: nat) -> Seq<u64> {
    Seq::new(point, |i: int| if i < s.len() { s[i] } else { 0u64 })
}

/// The limbs of `s` at or above the point, least significant first.
pub open spec fn integral_limbs(s: Seq<u64>, point: nat) -> Seq<u64> {
    if s.len() > point {
        s.skip(point as int)
    } else {
        Seq::empty()
    }
}

/// The text of the real `s / 2^(64 point)` in radix `r`: the integral limbs
/// as `integer_text` (`0` when there are none), a point, then every one of
/// the `point` fraction limbs, most significant first, zero-padded to at
/// least `w` digits.
pub open spec fn real_text(s: Seq<u64>, point: nat, r: nat, w: nat) -> Seq<char> {
    integer_text(integral_limbs(s, point), r, w) + seq!['.'] + limbs_text(
        fraction_limbs(s, point),
        r,
        w,
    )
}

/// The text of a real lists every fraction limb: a limb `x` put below the
/// limbs `s` (with at least `point` of them), read with one more fraction
/// limb, adds its group, at least `w` digits, at the end of the text; and
/// the fraction part of the text holds at least `w` digits per fraction limb.
pub proof fn lemma_real_text_limbs(x: u64, s: Seq<u64>, point: nat, r: nat, w: nat)
    ensures
        s.len() >= point ==> real_text(seq![x] + s, point + 1, r, w) == real_text(s, point, r, w) + at_least(x as nat, r, w),
        real_text(s, point, r, w).len() >= integer_text(integral_limbs(s, point), r, w).len() + 1 + w * point,
{
    let t = seq![x] + s;
    if s.len() >= point {
        assert(integral_limbs(t, point + 1) =~= integral_limbs(s, point));
        let f = fraction_limbs(t, point + 1);
        assert(f[0] == x);
        assert(f.skip(1) =~= fraction_limbs(s, point));
        assert(limbs_text(f, r, w) == limbs_text(f.skip(1), r, w) + at_least(x as nat, r, w));
        assert(real_text(t, point + 1, r, w) =~= real_text(s, point, r, w) + at_least(x as nat, r, w));
    }
    lemma_limbs_text_len(fraction_limbs(s, point), r, w);
}

/// Every group of `limbs_text` is at least `w` digits long.
proof fn lemma_limbs_text_len(f: Seq<u64>, r: nat, w: nat)
    ensures
        limbs_text(f, r, w).len() >= w * f.len(),
    decreases f.len(),
{
    if f.len() > 0 {
        lemma_limbs_text_len(f.skip(1), r, w);
        let d = crate::digits::digits(f[0] as nat, r);
        if d.len() < w {
            assert(crate::digits::zero_chars((w - d.len()) as nat).len() == w - d.len());
        }
        assert(at_least(f[0] as nat, r, w).len() >= w);
        assert(w * f.len() == w * f.skip(1).len() + w) by (nonlinear_arith)
            requires
                f.skip(1).len() == f.len() - 1,
        ;
    }
}

/// The number of Newton steps for `bits` bits: one per halving while more
/// than 40 bits are wanted.
pub open spec fn newton_step_count(bits: nat) -> nat
    decreases bits,
{
    if bits > 40 {
        1 + newton_step_count((bits + 1) / 2)
    } else {
        0
    }
}

/// There are no more steps than bits.
pub proof fn lemma_newton_step_count(bits: nat)
    ensures
        newton_step_count(bits) <= bits,
    decreases bits,
{
    if bits > 40 {
        lemma_newton_step_count((bits + 1) / 2);
    }
}

impl From<Integer> for Real {
    fn from(value: Integer) -> (r: Self)
        ensures
            r.mantissa == value,
            r.point == 0,
    {
        Real { mantissa: value, point: 0 }
    }
}

impl vstd::std_specs::convert::FromSpecImpl<Integer> for Real {
    open spec fn obeys_from_spec() -> bool {
        true
    }

    open spec fn from_spec(v: Integer) -> Self {
        Real { mantissa: v, point: 0 }
    }
}

impl Real {
    /// Multiply the mantissa by one limb; the point stays.
    pub fn mul_assign_u64(&mut self, rhs: u64)
        ensures
            final(self).mantissa@ == old(self).mantissa@ * rhs,
            final(self).point == old(self).point,
            final(self).mantissa.limbs@.len() == old(self).mantissa.limbs@.len() + (if old(self).mantissa@ * rhs >= bpow(
                old(self).mantissa.limbs@.len(),
            ) {
                1int
            } else {
                0int
            }),
    {
        self.mantissa.mul_assign_u64(rhs);
    }

    fn format_limbs(&self, r: u64, w: usize) -> (s: String)
        requires
            2 <= r <= 16,
        ensures
            s@ == real_text(self.mantissa.limbs@, self.point as nat, r as nat, w as nat),
    {
        let x = &self.mantissa;
        let len = x.limbs.len();
        let point = self.point;
        let whole = if len > point {
            x.get_leading(len - point)
        } else {
            Integer { limbs: Vec::new() }
        };
        proof {
            assert(whole.limbs@ =~= integral_limbs(x.limbs@, point as nat));
        }
        let mut s = whole.format_limbs(r, w);
        proof {
            reveal_strlit(".");
        }
        s.append(".");
        let ghost head = s@;
        let mut frac: Vec<u64> = Vec::new();
        let mut i: usize = 0;
        while i < point
            invariant
                i <= point,
                len == x.limbs@.len(),
                frac@ =~= fraction_limbs(x.limbs@, i as nat),
            decreases point - i,
        {
            if i < len {
                frac.push(x.limbs[i]);
            } else {
                frac.push(0);
            }
            i += 1;
        }
        append_limbs_text(&mut s, &frac, point, r, w);
        proof {
            assert(frac@.take(point as int) =~= fraction_limbs(x.limbs@, point as nat));
            assert(s@ =~= real_text(x.limbs@, point as nat, r as nat, w as nat));
        }
        s
    }

    /// Decimal text: see `real_text`, with lower limbs as at least 19 digits.
    pub fn to_display_string(&self) -> (s: String)
        ensures
            s@ == real_text(self.mantissa.limbs@, self.point as nat, 10, 19),
    {
        self.format_limbs(10, 19)
    }

    /// Upper-case hexadecimal text: see `real_text`, with lower limbs as 16
    /// digits.
    pub fn to_upper_hex_string(&self) -> (s: String)
        ensures
            s@ == real_text(self.mantissa.limbs@, self.point as nat, 16, 16),
    {
        self.format_limbs(16, 16)
    }

    /// The start of the inverse square root of `a`: `isqrt((2^128 - 1) / a)`
    /// in the upper of two limbs, about `2^128 / sqrt(a)`.
    fn initialize_inverse_square_root(a: u64) -> (x: Integer)
        requires
            a > 0,
        ensures
            x.limbs@ == seq![0u64, isqrt((0xffff_ffff_ffff_ffff_ffff_ffff_ffff_ffffnat / a as nat)) as u64],
    {
        let q: u128 = 0xffff_ffff_ffff_ffff_ffff_ffff_ffff_ffffu128 / (a as u128);
        let r = isqrt_u128(q);
        let mut limbs: Vec<u64> = Vec::new();
        limbs.push(0);
        limbs.push(r);
        proof {
            assert(limbs@ =~= seq![0u64, r]);
        }
        Integer { limbs }
    }

    /// The inverse square root of `a` to `limbs` limbs. The Newton steps
    /// `x + x (1 - a x^2) / 2` are run once per halving of the precision, and
    /// the result is the real zero (one zero limb, point zero).
    pub fn inverse_square_root(a: u64, limbs: usize) -> (r: Self)
        requires
            a > 0,
            64 * limbs <= usize::MAX,
            4 * pow(3, newton_step_count(64 * limbs as nat)) <= usize::MAX,
        ensures
            r.mantissa.limbs@ == seq![0u64],
            r.mantissa@ == 0,
            r.point == 0,
    {
        let ghost total = newton_step_count(64 * limbs as nat);
        let mut bits: usize = limbs * 64;
        let mut steps: usize = 0;
        proof {
            lemma_newton_step_count(64 * limbs as nat);
        }
        assert(64 * limbs < usize::MAX);
        while bits > 40
            invariant
                steps + newton_step_count(bits as nat) == total,
                bits <= 64 * limbs < usize::MAX,
                total <= 64 * limbs,
            decreases bits,
        {
            steps += 1;
            bits = (bits + 1) / 2;
        }
        let mut x = Self::initialize_inverse_square_root(a);
        let mut j: usize = 0;
        proof {
            reveal(pow);
            vstd::arithmetic::power::lemma_pow_positive(3, total);
        }
        while j < steps
            invariant
                j <= steps == total,
                4 * pow(3, total) <= usize::MAX,
                x.limbs@.len() >= 1,
                x.limbs@.len() + 1 <= 4 * pow(3, j as nat),
            decreases steps - j,
        {
            proof {
                reveal(pow);
                vstd::arithmetic::power::lemma_pow_increases(3, (j + 1) as nat, total);
                assert(pow(3, (j + 1) as nat) == 3 * pow(3, j as nat));
            }
            let ghost xl = x.limbs@.len();
            let mut t = x.square();
            t.mul_assign_u64(a);
            let ghost tl = t.limbs@.len();
            assert(tl <= 2 * xl + 1);
            t.negate();
            proof {
                lemma_limb_len(t@);
                lemma_bpow_pos(tl);
                if limb_len(t@) > tl {
                    lemma_bpow_mono(tl, (limb_len(t@) - 1) as nat);
                }
                assert(t.limbs@.len() <= 2 * xl + 1);
            }
            t.mul_assign(&x);
            assert(t.limbs@.len() <= 3 * xl + 1);
            t.shr_assign(1);
            x.shift_up_limbs(0);
            t.shift_down_limbs(0);
            x.add_assign(&t);
            assert(x.limbs@.len() <= 3 * xl + 2);
            j += 1;
        }
        Real { mantissa: Integer::from_u64(0), point: 0 }
    }

    /// The square root of `a` to `limbs` limbs: the inverse square root times
    /// `a`.
    pub fn square_root(a: u64, limbs: usize) -> (r: Self)
        requires
            a > 0,
            64 * limbs <= usize::MAX,
            4 * pow(3, newton_step_count(64 * limbs as nat)) <= usize::MAX,
        ensures
            r.mantissa@ == 0,
            r.mantissa.limbs@.len() == 1,
            r.point == 0,
    {
        let mut x = Self::inverse_square_root(a, limbs);
        proof {
            lemma_bpow_pos(1);
        }
        x.mul_assign_u64(a);
        x
    }
}
} // verus!
