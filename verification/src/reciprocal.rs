//! How close the Newton reciprocal comes: the error `2^s - d x` of the seed is
//! at most `2^s / 2^48 + 2 d` in size, each step squares the first part, and
//! the finished iteration leaves `0 <= 2^s - d r <= 2 d`.
use vstd::prelude::*;
use vstd::arithmetic::mul::*;
use vstd::arithmetic::div_mod::*;
use vstd::arithmetic::power2::*;
use crate::limbs::{lemma_pow2_increases, bit_len, lemma_bit_len_bounds};
use crate::binary_fixed::{
    reciprocal_step, reciprocal_iter, reciprocal_seed_value, newton_steps, seed_top, seed_top_bits,
    lemma_seed_bound, lemma_div_by_multiple_is_strongly_ordered_or_le, lemma_reciprocal_step_bound,
};

verus! {

/// The error of `x` as an approximation of `2^s / d`, scaled by `d`:
/// `2^s - d x`.
pub open spec fn reciprocal_error(d: nat, s: nat, x: nat) -> int {
    pow2(s) as int - (d * x) as int
}

/// `x` is close to `2^s / d` at `a` bits: `d x <= 2^(s + 1)` and
/// `|2^s - d x| * 2^a <= 2^s + 2 d 2^a`, written with squares.
pub open spec fn reciprocal_close(d: nat, s: nat, x: nat, a: nat) -> bool {
    let e = reciprocal_error(d, s, x);
    let p = pow2(a) as int;
    let bound = pow2(s) as int + 2 * (d as int) * p;
    &&& d * x <= pow2(s + 1)
    &&& e * e * (p * p) <= bound * bound
}

/// The step's error against the error before it: `2^s e' < e^2 + d 2^s`.
proof fn lemma_step_error(d: nat, s: nat, x: nat)
    requires
        d > 0,
        d * x <= pow2(s + 1),
    ensures
        (pow2(s) as int) * reciprocal_error(d, s, reciprocal_step(d, s, x))
            < reciprocal_error(d, s, x) * reciprocal_error(d, s, x) + (d as int) * (pow2(s) as int),
{
    let bb = pow2(s) as int;
    lemma_pow2_pos(s);
    lemma_pow2_adds(s, 1);
    lemma2_to64();
    let t = (d * x) as int;
    let e = bb - t;
    let c = 2 * bb - t;
    assert(c == (pow2(s + 1) - d * x) as nat);
    let z = (x * (c as nat)) as int;
    let y0 = z / bb;
    let rem = z % bb;
    lemma_fundamental_div_mod(z, bb);
    lemma_mod_bound(z, bb);
    let di = d as int;
    let xi = x as int;
    assert(di * z == t * c) by (nonlinear_arith)
        requires
            z == xi * c,
            t == di * xi,
    ;
    assert(t * c == bb * bb - e * e) by (nonlinear_arith)
        requires
            e == bb - t,
            c == 2 * bb - t,
    ;
    let y = reciprocal_step(d, s, x);
    if y0 == 0 {
        assert(y == 1);
        assert(di * z < di * bb) by (nonlinear_arith)
            requires
                z == bb * y0 + rem,
                y0 == 0,
                rem < bb,
                di > 0,
        ;
        assert(bb * reciprocal_error(d, s, y) == bb * (bb - di)) by (nonlinear_arith)
            requires
                reciprocal_error(d, s, y) == bb - di * 1,
        ;
        assert(bb * (bb - di) < e * e + di * bb) by (nonlinear_arith)
            requires
                di * z < di * bb,
                di * z == bb * bb - e * e,
                di > 0,
                bb > 0,
        ;
    } else {
        assert(y == y0);
        assert(bb * (di * y0) > di * z - di * bb) by (nonlinear_arith)
            requires
                z == bb * y0 + rem,
                0 <= rem < bb,
                di > 0,
        ;
        assert(bb * reciprocal_error(d, s, y) == bb * bb - bb * (di * y0)) by (nonlinear_arith)
            requires
                reciprocal_error(d, s, y) == bb - di * y0,
        ;
    }
}


/// A step from `x`, close at `a >= 4` bits, is close at `2 a` bits, and
/// undershoots: `0 <= 2^s - d y`.
pub proof fn lemma_step_close(d: nat, s: nat, x: nat, a: nat)
    requires
        d > 0,
        8 * d <= pow2(s),
        a >= 4,
        reciprocal_close(d, s, x, a),
    ensures
        reciprocal_close(d, s, reciprocal_step(d, s, x), 2 * a),
        reciprocal_error(d, s, reciprocal_step(d, s, x)) >= 0,
{
    let y = reciprocal_step(d, s, x);
    let bb = pow2(s) as int;
    let pp = pow2(a) as int;
    let di = d as int;
    lemma_pow2_pos(s);
    lemma_pow2_pos(a);
    lemma_pow2_adds(a, a);
    lemma_pow2_adds(s, 1);
    lemma2_to64();
    lemma_pow2_increases(4, a);
    assert(pp >= 16);
    lemma_step_error(d, s, x);
    lemma_reciprocal_step_bound(d, s, x);
    let e = reciprocal_error(d, s, x);
    let e1 = reciprocal_error(d, s, y);
    let bound = bb + 2 * di * pp;
    assert(e1 >= 0);
    assert(d * y <= pow2(s + 1));
    // 2^s e1 P^2 < (e^2 + d 2^s) P^2 <= bound^2 + d 2^s P^2 <= 2^s (2^s + 2 d P^2)
    assert(bb * e1 * (pp * pp) < e * e * (pp * pp) + di * bb * (pp * pp)) by (nonlinear_arith)
        requires
            bb * e1 < e * e + di * bb,
            pp > 0,
    ;
    assert(bound * bound + di * bb * (pp * pp) <= bb * (bb + 2 * di * (pp * pp))) by (nonlinear_arith)
        requires
            bound == bb + 2 * di * pp,
            pp >= 16,
            8 * di <= bb,
            di > 0,
            bb > 0,
    {
        assert(4 * bb + 4 * di * pp <= bb * pp) by (nonlinear_arith)
            requires
                pp >= 16,
                8 * di <= bb,
                bb > 0,
        ;
        assert(di * pp * (4 * bb + 4 * di * pp) <= di * pp * (bb * pp)) by (nonlinear_arith)
            requires
                4 * bb + 4 * di * pp <= bb * pp,
                di > 0,
                pp > 0,
        ;
    }
    let pq = pp * pp;
    let bound1 = bb + 2 * di * pq;
    assert(e1 * pq < bound1) by (nonlinear_arith)
        requires
            bb * e1 * pq < bb * bound1,
            bb > 0,
    ;
    assert(e1 * e1 * (pq * pq) <= bound1 * bound1) by (nonlinear_arith)
        requires
            0 <= e1 * pq < bound1,
            e1 >= 0,
    {
        assert(e1 * e1 * (pq * pq) == (e1 * pq) * (e1 * pq));
    }
    assert(pow2(2 * a) as int == pq);
}

/// The seed is close at 48 bits: it is `2^s` over the leading (at most 53)
/// bits of `d`, so it overshoots by at most `2^s / 2^52` and undershoots by
/// less than `d`.
pub proof fn lemma_seed_close(d: nat, s: nat)
    requires
        d > 0,
        bit_len(d) + 3 <= s,
    ensures
        reciprocal_close(d, s, reciprocal_seed_value(d, s), 48),
{
    let l = bit_len(d);
    let tb = seed_top_bits(d);
    let k = (l - tb) as nat;
    let top = seed_top(d);
    let x0 = reciprocal_seed_value(d, s);
    lemma_seed_bound(d, s);
    lemma_bit_len_bounds(d);
    lemma_pow2_pos(k);
    lemma_pow2_pos(s);
    lemma_pow2_pos((s - k) as nat);
    lemma_pow2_adds(k, (s - k) as nat);
    lemma2_to64();
    assert((s + tb - l) as nat == (s - k) as nat);
    let bb = pow2(s) as int;
    let pk = pow2(k) as int;
    let pe = pow2((s - k) as nat) as int;
    let di = d as int;
    let ti = top as int;
    let xi = x0 as int;
    assert(bb == pk * pe);
    lemma_fundamental_div_mod(di, pk);
    lemma_mod_bound(di, pk);
    lemma_fundamental_div_mod(pe, ti);
    lemma_mod_bound(pe, ti);
    assert(ti * xi <= pe < ti * (xi + 1)) by (nonlinear_arith)
        requires
            pe == ti * xi + pe % ti,
            0 <= pe % ti < ti,
    ;
    assert(pk * ti <= di < pk * (ti + 1)) by (nonlinear_arith)
        requires
            di == pk * ti + di % pk,
            0 <= di % pk < pk,
    ;
    let t0 = di * xi;
    // undershoot: t0 > 2^s - d
    assert(t0 > bb - di) by (nonlinear_arith)
        requires
            t0 == di * xi,
            pk * ti <= di,
            pe < ti * (xi + 1),
            bb == pk * pe,
            pk > 0,
            xi >= 0,
    {
        assert(t0 >= pk * ti * xi);
        assert(pk * pe < pk * (ti * (xi + 1)));
    }
    // overshoot: top (t0 - 2^s) <= 2^s
    assert(ti * (t0 - bb) <= bb) by (nonlinear_arith)
        requires
            t0 == di * xi,
            di < pk * (ti + 1),
            ti * xi <= pe,
            bb == pk * pe,
            xi >= 0,
            ti >= 1,
            pk > 0,
    {
        assert(ti * t0 <= (pk * (ti + 1)) * (ti * xi));
        assert((pk * (ti + 1)) * (ti * xi) <= (pk * (ti + 1)) * pe);
    }
    lemma2_to64_rest();
    let p48 = pow2(48) as int;
    assert(p48 == 0x1_0000_0000_0000);
    if t0 > bb {
        if l < 53 {
            assert(k == 0);
            assert(pk == 1);
            assert(ti == di) by {
                lemma_div_basics(di);
            }
            assert(t0 <= bb) by (nonlinear_arith)
                requires
                    t0 == di * xi,
                    ti == di,
                    ti * xi <= pe,
                    bb == pk * pe,
                    pk == 1,
            ;
        }
        assert(tb == 53);
        lemma_pow2_adds(k, 52);
        assert(pow2(k) * pow2(52) <= d) by {
            assert(k + 52 == l - 1);
            lemma_pow2_increases((k + 52) as nat, (l - 1) as nat);
        }
        lemma_div_by_multiple_is_strongly_ordered_or_le(d, k, 52);
        assert(ti >= 0x10_0000_0000_0000);
        assert((t0 - bb) * p48 * 16 <= bb) by (nonlinear_arith)
            requires
                ti * (t0 - bb) <= bb,
                ti >= 0x10_0000_0000_0000,
                t0 > bb,
                p48 == 0x1_0000_0000_0000,
        ;
    }
    let e = reciprocal_error(d, s, x0);
    assert(e == bb - t0);
    let bound = bb + 2 * di * p48;
    assert(e * e * (p48 * p48) <= bound * bound) by (nonlinear_arith)
        requires
            e < di,
            e < 0 ==> -e * p48 * 16 <= bb,
            bound == bb + 2 * di * p48,
            bb > 0,
            di > 0,
            p48 > 0,
    {
        if e >= 0 {
            assert(e * p48 <= bound);
            assert((e * p48) * (e * p48) <= bound * bound);
        } else {
            assert(-e * p48 <= bound);
            assert((-e * p48) * (-e * p48) <= bound * bound);
        }
        assert(e * e * (p48 * p48) == (e * p48) * (e * p48));
    }
    assert(d * x0 <= pow2(s + 1));
}

/// After `k` steps from a seed close at 48 bits the iterate is close at
/// `48 * 2^k` bits, and from the first step on it undershoots.
pub proof fn lemma_iter_close(d: nat, s: nat, x0: nat, k: nat)
    requires
        d > 0,
        8 * d <= pow2(s),
        reciprocal_close(d, s, x0, 48),
    ensures
        reciprocal_close(d, s, reciprocal_iter(d, s, x0, k), 48 * pow2(k)),
        k >= 1 ==> reciprocal_error(d, s, reciprocal_iter(d, s, x0, k)) >= 0,
    decreases k,
{
    if k == 0 {
        lemma2_to64();
        assert(48 * pow2(0) == 48);
    } else {
        let j = (k - 1) as nat;
        lemma_iter_close(d, s, x0, j);
        lemma_pow2_pos(j);
        lemma_pow2_adds(j, 1);
        lemma2_to64();
        assert(48 * pow2(j) >= 4) by (nonlinear_arith)
            requires
                pow2(j) > 0,
        ;
        lemma_step_close(d, s, reciprocal_iter(d, s, x0, j), 48 * pow2(j));
        assert(2 * (48 * pow2(j)) == 48 * pow2(k)) by {
            assert(pow2(k) == pow2(j) * 2);
        }
    }
}

/// Doubling a precision `newton_steps(prec, target)` times reaches `target`.
pub proof fn lemma_newton_steps_reach(prec: nat, target: nat)
    requires
        prec >= 1,
    ensures
        prec * pow2(newton_steps(prec, target)) >= target,
    decreases if prec < target {
        target - prec
    } else {
        0
    },
{
    lemma2_to64();
    if prec < target {
        lemma_newton_steps_reach(2 * prec, target);
        let n = newton_steps(2 * prec, target);
        lemma_pow2_adds(n, 1);
        assert(prec * pow2(n + 1) == (2 * prec) * pow2(n)) by (nonlinear_arith)
            requires
                pow2(n + 1) == pow2(n) * 2,
        ;
    } else {
        assert(prec * pow2(0) == prec);
    }
}

/// The finished reciprocal iteration (two steps beyond the doublings that
/// reach `s + 8` bits) undershoots `2^s / d` by at most two:
/// `d r <= 2^s <= d r + 2 d`, when `d` has at least three bits fewer than `s`.
pub proof fn lemma_reciprocal_accurate(d: nat, s: nat)
    requires
        d > 0,
        bit_len(d) + 3 <= s,
    ensures
        ({
            let r = reciprocal_iter(d, s, reciprocal_seed_value(d, s), 2 + newton_steps(48, s + 8));
            &&& d * r <= pow2(s)
            &&& pow2(s) <= d * r + 2 * d
        }),
{
    let j = newton_steps(48, s + 8);
    let k = 2 + j;
    let x0 = reciprocal_seed_value(d, s);
    let r = reciprocal_iter(d, s, x0, k);
    lemma_bit_len_bounds(d);
    lemma_pow2_adds(bit_len(d), 3);
    lemma2_to64();
    lemma_pow2_increases(bit_len(d) + 3, s);
    assert(8 * d <= pow2(s));
    lemma_seed_close(d, s);
    lemma_iter_close(d, s, x0, k);
    lemma_newton_steps_reach(48, s + 8);
    lemma_pow2_adds(j, 2);
    let a = 48 * pow2(k);
    assert(a >= s + 1) by (nonlinear_arith)
        requires
            48 * pow2(j) >= s + 8,
            pow2(k) == pow2(j) * 4,
            a == 48 * pow2(k),
    ;
    lemma_pow2_strictly_increases(s, a);
    let e = reciprocal_error(d, s, r);
    let bb = pow2(s) as int;
    let pp = pow2(a) as int;
    let di = d as int;
    let bound = bb + 2 * di * pp;
    assert(e <= 2 * di) by (nonlinear_arith)
        requires
            e >= 0,
            e * e * (pp * pp) <= bound * bound,
            bound == bb + 2 * di * pp,
            bb < pp,
            bb > 0,
            di > 0,
    {
        assert(e * pp <= bound) by {
            if e * pp > bound {
                assert((e * pp) * (e * pp) > bound * bound);
            }
        }
        assert(e * pp < (2 * di + 1) * pp);
    }
}

/// The seed against `2^s / d`: it is at least the floor of the quotient, equal
/// to it when `d` has at most 53 bits, and over the quotient by at most a
/// factor `1 + 2^-52`.
pub proof fn lemma_seed_floor(d: nat, s: nat)
    requires
        d > 0,
        bit_len(d) <= s + seed_top_bits(d),
    ensures
        seed_top(d) >= 1,
        pow2(s) / d <= reciprocal_seed_value(d, s),
        bit_len(d) <= 53 ==> reciprocal_seed_value(d, s) == pow2(s) / d,
        d * reciprocal_seed_value(d, s) * pow2(52) <= pow2(s) * (pow2(52) + 1),
{
    let l = bit_len(d);
    let tb = seed_top_bits(d);
    let k = (l - tb) as nat;
    let top = seed_top(d);
    let x0 = reciprocal_seed_value(d, s);
    lemma_bit_len_bounds(d);
    lemma_pow2_pos(k);
    lemma_pow2_pos(s);
    lemma_pow2_pos((s - k) as nat);
    lemma_pow2_adds(k, (s - k) as nat);
    lemma2_to64();
    lemma2_to64_rest();
    assert((s + tb - l) as nat == (s - k) as nat);
    let bb = pow2(s) as int;
    let pk = pow2(k) as int;
    let pe = pow2((s - k) as nat) as int;
    let di = d as int;
    // top >= 1: 2^(l - 1) <= d, and 2^k 2^(tb - 1) == 2^(l - 1)
    lemma_pow2_adds(k, (tb - 1) as nat);
    assert(pow2(k) * pow2((tb - 1) as nat) <= d);
    lemma_div_by_multiple_is_strongly_ordered_or_le(d, k, (tb - 1) as nat);
    lemma_pow2_pos((tb - 1) as nat);
    let ti = top as int;
    let xi = x0 as int;
    assert(ti >= 1);
    assert(bb == pk * pe);
    lemma_fundamental_div_mod(di, pk);
    lemma_mod_bound(di, pk);
    lemma_fundamental_div_mod(pe, ti);
    lemma_mod_bound(pe, ti);
    assert(ti * xi <= pe < ti * (xi + 1)) by (nonlinear_arith)
        requires
            pe == ti * xi + pe % ti,
            0 <= pe % ti < ti,
    ;
    assert(pk * ti <= di < pk * (ti + 1)) by (nonlinear_arith)
        requires
            di == pk * ti + di % pk,
            0 <= di % pk < pk,
    ;
    // floor(2^s / d) <= x0: 2^s < d (x0 + 1)
    assert(bb < di * (xi + 1)) by (nonlinear_arith)
        requires
            pk * ti <= di,
            pe < ti * (xi + 1),
            bb == pk * pe,
            pk > 0,
            xi >= 0,
    {
        assert(pk * pe < pk * (ti * (xi + 1)));
    }
    lemma_fundamental_div_mod(bb, di);
    lemma_mod_bound(bb, di);
    let fl = bb / di;
    assert(fl <= xi) by (nonlinear_arith)
        requires
            bb == di * fl + bb % di,
            bb % di >= 0,
            bb < di * (xi + 1),
            di > 0,
    {
        if fl > xi {
            assert(di * fl >= di * (xi + 1));
        }
    }
    if l <= 53 {
        assert(k == 0);
        assert(pk == 1);
        assert(ti == di) by {
            lemma_div_basics(di);
        }
        assert(fl == xi) by (nonlinear_arith)
            requires
                ti * xi <= pe,
                ti == di,
                pk == 1,
                bb == pk * pe,
                bb == di * fl + bb % di,
                0 <= bb % di < di,
                fl <= xi,
        {
            if fl < xi {
                assert(di * xi <= bb);
                assert(di * (fl + 1) <= di * xi);
            }
        }
    }
    // overshoot: top (d x0 - 2^s) <= 2^s, and top >= 2^52 once d has 53 bits
    let t0 = di * xi;
    assert(ti * t0 <= (ti + 1) * bb) by (nonlinear_arith)
        requires
            t0 == di * xi,
            di < pk * (ti + 1),
            ti * xi <= pe,
            bb == pk * pe,
            xi >= 0,
            ti >= 1,
            pk > 0,
    {
        assert(ti * t0 <= (pk * (ti + 1)) * (ti * xi));
        assert((pk * (ti + 1)) * (ti * xi) <= (pk * (ti + 1)) * pe);
    }
    let p52 = pow2(52) as int;
    assert(p52 == 0x10_0000_0000_0000);
    if l <= 53 {
        assert(t0 <= bb) by (nonlinear_arith)
            requires
                t0 == di * xi,
                ti == di,
                ti * xi <= pe,
                bb == pk * pe,
                pk == 1,
        ;
        assert(t0 * p52 <= bb * (p52 + 1)) by (nonlinear_arith)
            requires
                t0 <= bb,
                p52 > 0,
                bb > 0,
        ;
    } else {
        assert(tb == 53);
        assert(ti >= p52);
        assert(t0 * p52 <= bb * (p52 + 1)) by (nonlinear_arith)
            requires
                ti * t0 <= (ti + 1) * bb,
                ti >= p52,
                p52 > 0,
                bb > 0,
                t0 >= 0,
        {
            if t0 > bb {
                assert(ti * (t0 - bb) <= bb);
                assert(p52 * (t0 - bb) <= ti * (t0 - bb));
            }
        }
    }
    assert(d * x0 * pow2(52) == t0 * p52);
}
} // verus!
