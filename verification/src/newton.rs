//! Fixed-point Newton iteration for inverse square roots: its seed, its step,
//! and the bound that keeps every step well defined.
use vstd::prelude::*;
use vstd::arithmetic::mul::*;
use vstd::arithmetic::div_mod::*;
use vstd::arithmetic::power2::*;
use crate::isqrt::{isqrt, lemma_isqrt};
use crate::binary_fixed::newton_steps;
use crate::reciprocal::lemma_newton_steps_reach;

verus! {

/// The starting point of the inverse square root iteration: `2^p / sqrt(n)`
/// from the integer square root of `2^126 / n`, moved to `p` fraction bits.
pub open spec fn inv_sqrt_seed_value(n: nat, p: nat) -> nat {
    let s0 = isqrt(pow2(126) / n);
    if p >= 63 {
        s0 * pow2((p - 63) as nat)
    } else {
        s0 / pow2((63 - p) as nat)
    }
}

/// One Newton step for `2^p / sqrt(n)` in fixed point:
/// `x (3 - n x^2) / 2`, each product truncated to `p` fraction bits.
pub open spec fn inv_sqrt_step(n: nat, p: nat, x: nat) -> nat {
    let c = (3 * pow2(p) - n * ((x * x) / pow2(p))) as nat;
    ((x * c) / pow2(p)) / 2
}

/// `k` inverse square root steps from `x`.
pub open spec fn inv_sqrt_iter(n: nat, p: nat, x: nat, k: nat) -> nat
    decreases k,
{
    if k == 0 {
        x
    } else {
        inv_sqrt_step(n, p, inv_sqrt_iter(n, p, x, (k - 1) as nat))
    }
}

/// The first `k` steps of the iteration from `x` can be taken: before each,
/// `n x^2`, truncated to `p` fraction bits, is at most 3.
pub open spec fn inv_sqrt_runs(n: nat, p: nat, x: nat, k: nat) -> bool
    decreases k,
{
    if k == 0 {
        true
    } else {
        let y = inv_sqrt_iter(n, p, x, (k - 1) as nat);
        inv_sqrt_runs(n, p, x, (k - 1) as nat) && n * ((y * y) / pow2(p)) <= 3 * pow2(p)
    }
}

/// When the first `k` steps can be taken, so can each of them.
pub proof fn lemma_inv_sqrt_runs_prefix(n: nat, p: nat, x: nat, j: nat, k: nat)
    requires
        j < k,
        inv_sqrt_runs(n, p, x, k),
    ensures
        inv_sqrt_runs(n, p, x, j + 1),
        n * ((inv_sqrt_iter(n, p, x, j) * inv_sqrt_iter(n, p, x, j)) / pow2(p)) <= 3 * pow2(p),
    decreases k,
{
    if j + 1 < k {
        lemma_inv_sqrt_runs_prefix(n, p, x, j, (k - 1) as nat);
    }
}

/// The seed does not overshoot: `n x^2 <= 4^p`.
pub proof fn lemma_inv_sqrt_seed(n: nat, p: nat)
    requires
        n > 0,
    ensures
        n * inv_sqrt_seed_value(n, p) * inv_sqrt_seed_value(n, p) <= pow2(2 * p),
{
    let v = pow2(126) / n;
    let s0 = isqrt(v);
    lemma_isqrt(v);
    lemma_fundamental_div_mod(pow2(126) as int, n as int);
    lemma_mod_bound(pow2(126) as int, n as int);
    assert(n * (s0 * s0) <= pow2(126)) by (nonlinear_arith)
        requires
            s0 * s0 <= v,
            pow2(126) == n * v + pow2(126) % n,
            pow2(126) % n >= 0,
            n > 0,
    ;
    let x = inv_sqrt_seed_value(n, p);
    if p >= 63 {
        let k = (p - 63) as nat;
        lemma_pow2_adds(k, k);
        lemma_pow2_adds(126, k + k);
        assert(126 + (k + k) == 2 * p);
        assert(n * x * x == (n * (s0 * s0)) * (pow2(k) * pow2(k))) by (nonlinear_arith)
            requires
                x == s0 * pow2(k),
        ;
        assert((n * (s0 * s0)) * (pow2(k) * pow2(k)) <= pow2(126) * (pow2(k) * pow2(k))) by (nonlinear_arith)
            requires
                n * (s0 * s0) <= pow2(126),
        ;
    } else {
        let k = (63 - p) as nat;
        lemma_pow2_pos(k);
        lemma_fundamental_div_mod(s0 as int, pow2(k) as int);
        lemma_mod_bound(s0 as int, pow2(k) as int);
        lemma_pow2_adds(k, k);
        lemma_pow2_adds(2 * p, k + k);
        assert(2 * p + (k + k) == 126);
        let kk = pow2(k) * pow2(k);
        assert(x * pow2(k) <= s0) by (nonlinear_arith)
            requires
                s0 == pow2(k) * x + s0 % pow2(k),
                s0 % pow2(k) >= 0,
        ;
        assert((n * x * x) * kk <= n * (s0 * s0)) by (nonlinear_arith)
            requires
                x * pow2(k) <= s0,
                kk == pow2(k) * pow2(k),
                x >= 0,
                n >= 0,
        ;
        assert((n * x * x) * kk <= pow2(2 * p) * kk);
        lemma_mul_strictly_positive(pow2(k) as int, pow2(k) as int);
        lemma_mul_inequality_converse_nat(n * x * x, pow2(2 * p), kk);
    }
}

/// Cancelling a positive factor from an inequality.
proof fn lemma_mul_inequality_converse_nat(a: nat, b: nat, c: nat)
    requires
        c > 0,
        a * c <= b * c,
    ensures
        a <= b,
{
    if a > b {
        lemma_mul_strict_inequality(b as int, a as int, c as int);
    }
}


/// A Newton step keeps `n x^2 <= 3 * 4^p`, for `n <= 2^p`.
pub proof fn lemma_inv_sqrt_step(n: nat, p: nat, x: nat)
    requires
        1 <= n <= pow2(p),
        n * x * x <= 3 * pow2(2 * p),
    ensures
        n * ((x * x) / pow2(p)) <= 3 * pow2(p),
        n * inv_sqrt_step(n, p, x) * inv_sqrt_step(n, p, x) <= 3 * pow2(2 * p),
{
    let b = pow2(p) as int;
    lemma_pow2_pos(p);
    lemma_pow2_adds(p, p);
    assert(pow2(2 * p) == b * b);
    let ni = n as int;
    let xi = x as int;
    lemma_fundamental_div_mod(xi * xi, b);
    lemma_mod_bound(xi * xi, b);
    let sq = (xi * xi) / b;
    let r1 = (xi * xi) % b;
    let u = ni * sq;
    // n sq <= 3 b
    assert(b * u <= ni * (xi * xi)) by (nonlinear_arith)
        requires
            xi * xi == b * sq + r1,
            r1 >= 0,
            ni >= 0,
            u == ni * sq,
    ;
    assert(ni * xi * xi == ni * (xi * xi)) by (nonlinear_arith);
    assert(u <= 3 * b) by (nonlinear_arith)
        requires
            b * u <= 3 * (b * b),
            b > 0,
    ;
    let c = 3 * b - u;
    lemma_fundamental_div_mod(xi * c, b);
    lemma_mod_bound(xi * c, b);
    let w = (xi * c) / b;
    lemma_div_pos_is_pos(xi * c, b);
    let x2 = w / 2;
    assert(2 * x2 <= w);
    assert(2 * b * x2 <= xi * c) by (nonlinear_arith)
        requires
            2 * x2 <= w,
            xi * c == b * w + (xi * c) % b,
            (xi * c) % b >= 0,
            b > 0,
    ;
    // n x^2 <= b (4b - c)
    assert(ni * (xi * xi) <= b * (4 * b - c)) by (nonlinear_arith)
        requires
            xi * xi == b * sq + r1,
            r1 < b,
            ni <= b,
            ni >= 1,
            u == ni * sq,
            c == 3 * b - u,
    {
        assert(ni * (xi * xi) == b * u + ni * r1);
        assert(ni * r1 <= ni * b);
        assert(ni * b <= b * b);
    }
    // (4b - c) c^2 <= 12 b^3 for 0 <= c <= 3b
    assert((4 * b - c) * (c * c) <= 12 * (b * b * b)) by (nonlinear_arith)
        requires
            0 <= c <= 3 * b,
            b > 0,
    {
        assert(12 * (b * b * b) - (4 * b - c) * (c * c) == c * ((c - 2 * b) * (c - 2 * b)) + 4 * (b * b) * (3 * b - c));
    }
    assert(4 * (b * b) * (ni * (x2 * x2)) <= 12 * (b * b) * (b * b)) by (nonlinear_arith)
        requires
            2 * b * x2 <= xi * c,
            x2 >= 0,
            c >= 0,
            ni >= 0,
            ni * (xi * xi) <= b * (4 * b - c),
            (4 * b - c) * (c * c) <= 12 * (b * b * b),
            b > 0,
    {
        assert((2 * b * x2) * (2 * b * x2) <= (xi * c) * (xi * c));
        assert(4 * (b * b) * (ni * (x2 * x2)) == ni * ((2 * b * x2) * (2 * b * x2)));
        assert(ni * ((2 * b * x2) * (2 * b * x2)) <= ni * ((xi * c) * (xi * c)));
        assert(ni * ((xi * c) * (xi * c)) == (ni * (xi * xi)) * (c * c));
        assert((ni * (xi * xi)) * (c * c) <= (b * (4 * b - c)) * (c * c));
        assert((b * (4 * b - c)) * (c * c) == b * ((4 * b - c) * (c * c)));
        assert(b * ((4 * b - c) * (c * c)) <= b * (12 * (b * b * b)));
    }
    lemma_mul_strictly_positive(4 * b, b);
    assert(ni * (x2 * x2) <= 3 * (b * b)) by (nonlinear_arith)
        requires
            4 * (b * b) * (ni * (x2 * x2)) <= 12 * (b * b) * (b * b),
            b > 0,
    ;
    assert(inv_sqrt_step(n, p, x) == x2);
    assert(n * x2 * x2 == ni * (x2 * x2)) by (nonlinear_arith)
        requires
            ni == n,
    ;
}


/// The error of `x` as an approximation of `2^p / sqrt(n)`, measured on the
/// square: `4^p - n x^2`.
pub open spec fn inv_sqrt_error(n: nat, p: nat, x: nat) -> int {
    pow2(2 * p) as int - (n * x * x) as int
}

/// The slack that truncation adds to each step: `12 n 2^p`.
pub open spec fn inv_sqrt_slack(n: nat, p: nat) -> int {
    12 * (n as int) * (pow2(p) as int)
}

/// `x` is close to `2^p / sqrt(n)` at `a` bits: `n x^2 <= 3 * 4^p` and
/// `|4^p - n x^2| * 2^a <= 4^p + slack * 2^a`, written with squares.
pub open spec fn inv_sqrt_close(n: nat, p: nat, x: nat, a: nat) -> bool {
    let e = inv_sqrt_error(n, p, x);
    let q = pow2(a) as int;
    let bound = pow2(2 * p) as int + inv_sqrt_slack(n, p) * q;
    &&& n * x * x <= 3 * pow2(2 * p)
    &&& e * e * (q * q) <= bound * bound
}

/// For `n <= 2^p` every step of the iteration from the seed can be taken,
/// and the iterate never overshoots by more than `sqrt(3)`: `n x^2 <= 3 * 4^p`.
pub proof fn lemma_inv_sqrt_runs(n: nat, p: nat, k: nat)
    requires
        1 <= n <= pow2(p),
    ensures
        inv_sqrt_runs(n, p, inv_sqrt_seed_value(n, p), k),
        n * inv_sqrt_iter(n, p, inv_sqrt_seed_value(n, p), k) * inv_sqrt_iter(n, p, inv_sqrt_seed_value(n, p), k)
            <= 3 * pow2(2 * p),
    decreases k,
{
    let s = inv_sqrt_seed_value(n, p);
    lemma_inv_sqrt_seed(n, p);
    if k > 0 {
        lemma_inv_sqrt_runs(n, p, (k - 1) as nat);
        lemma_inv_sqrt_step(n, p, inv_sqrt_iter(n, p, s, (k - 1) as nat));
    }
}

/// The step result bracketed by `Z = x (3 * 4^p - n x^2)`:
/// `Z - 2 * 4^p < 2 * 4^p * y <= Z + x n 2^p`.
proof fn lemma_inv_sqrt_step_bracket(n: nat, p: nat, x: nat)
    requires
        1 <= n <= pow2(p),
        n * x * x <= 3 * pow2(2 * p),
    ensures
        ({
            let bb = pow2(p) as int;
            let z = (x as int) * (3 * (bb * bb) - (n * x * x) as int);
            let y = inv_sqrt_step(n, p, x) as int;
            &&& 2 * (bb * bb) * y <= z + (x as int) * (n as int) * bb
            &&& 2 * (bb * bb) * y + 2 * (bb * bb) > z
        }),
{
    lemma_inv_sqrt_step(n, p, x);
    let bb = pow2(p) as int;
    lemma_pow2_pos(p);
    lemma_pow2_adds(p, p);
    let ni = n as int;
    let xi = x as int;
    let v = ni * xi * xi;
    assert(v == (n * x * x) as int);
    lemma_fundamental_div_mod(xi * xi, bb);
    lemma_mod_bound(xi * xi, bb);
    let sq = (xi * xi) / bb;
    let u = ni * sq;
    let c = 3 * bb - u;
    assert(c >= 0);
    lemma_fundamental_div_mod(xi * c, bb);
    lemma_mod_bound(xi * c, bb);
    let w = (xi * c) / bb;
    let y = w / 2;
    assert(inv_sqrt_step(n, p, x) as int == y);
    let c0 = 3 * (bb * bb) - v;
    // c0 <= B c < c0 + n B
    assert(c0 <= bb * c < c0 + ni * bb) by (nonlinear_arith)
        requires
            xi * xi == bb * sq + (xi * xi) % bb,
            0 <= (xi * xi) % bb < bb,
            u == ni * sq,
            c == 3 * bb - u,
            c0 == 3 * (bb * bb) - v,
            v == ni * xi * xi,
            ni >= 1,
    {
        assert(bb * u == ni * (bb * sq));
        assert(ni * (bb * sq) == ni * (xi * xi) - ni * ((xi * xi) % bb));
        assert(ni * ((xi * xi) % bb) < ni * bb);
        assert(ni * ((xi * xi) % bb) >= 0);
    }
    let z = xi * c0;
    assert(2 * (bb * bb) * y <= z + xi * ni * bb) by (nonlinear_arith)
        requires
            xi * c == bb * w + (xi * c) % bb,
            (xi * c) % bb >= 0,
            2 * y <= w,
            bb * c < c0 + ni * bb,
            z == xi * c0,
            xi >= 0,
            bb > 0,
    {
        assert(bb * w <= xi * c);
        assert(2 * bb * y <= xi * c);
        assert(2 * (bb * bb) * y <= bb * (xi * c));
        assert(bb * (xi * c) == xi * (bb * c));
        assert(xi * (bb * c) <= xi * (c0 + ni * bb));
    }
    assert(2 * (bb * bb) * y + 2 * (bb * bb) > z) by (nonlinear_arith)
        requires
            xi * c == bb * w + (xi * c) % bb,
            (xi * c) % bb < bb,
            w <= 2 * y + 1,
            c0 <= bb * c,
            z == xi * c0,
            xi >= 0,
            bb > 0,
    {
        assert(xi * c < bb * (w + 1));
        assert(bb * (xi * c) < bb * (bb * (w + 1)));
        assert(xi * c0 <= xi * (bb * c));
        assert(xi * (bb * c) == bb * (xi * c));
        assert(bb * (bb * (w + 1)) <= bb * (bb * (2 * y + 2)));
    }
    assert(z == (x as int) * (3 * (bb * bb) - (n * x * x) as int));
}

/// `n Z^2` for `Z = x (3 * 4^p - n x^2)`, with `D = 4^p - n x^2`:
/// `(4^p - D) (2 * 4^p + D)^2 = 4 * 4^(3p) - 3 * 4^p D^2 - D^3`.
proof fn lemma_inv_sqrt_cube(n: int, x: int, b2: int)
    ensures
        n * ((x * (3 * b2 - n * x * x)) * (x * (3 * b2 - n * x * x)))
            == 4 * (b2 * b2 * b2) - 3 * b2 * ((b2 - n * x * x) * (b2 - n * x * x))
            - (b2 - n * x * x) * (b2 - n * x * x) * (b2 - n * x * x),
{
    let v = n * x * x;
    let d = b2 - v;
    assert(n * ((x * (3 * b2 - v)) * (x * (3 * b2 - v))) == v * ((3 * b2 - v) * (3 * b2 - v))) by (nonlinear_arith)
        requires
            v == n * x * x,
    ;
    assert(v * ((3 * b2 - v) * (3 * b2 - v)) == 4 * (b2 * b2 * b2) - 3 * b2 * (d * d) - d * d * d) by (nonlinear_arith)
        requires
            d == b2 - v,
    ;
}

/// An inverse square root step from `x`, close at `a >= 4` bits, is close at
/// `2 a` bits, when `n <= 2^(p - 8)`.
pub proof fn lemma_inv_sqrt_step_close(n: nat, p: nat, x: nat, a: nat)
    requires
        n >= 1,
        256 * n <= pow2(p),
        a >= 4,
        inv_sqrt_close(n, p, x, a),
    ensures
        inv_sqrt_close(n, p, inv_sqrt_step(n, p, x), 2 * a),
{
    let bb = pow2(p) as int;
    let qq = pow2(a) as int;
    let ni = n as int;
    let xi = x as int;
    lemma_pow2_pos(p);
    lemma_pow2_pos(a);
    lemma_pow2_adds(p, p);
    lemma_pow2_adds(a, a);
    lemma2_to64();
    crate::limbs::lemma_pow2_increases(4, a);
    assert(qq >= 16);
    let b2 = bb * bb;
    assert(pow2(2 * p) as int == b2);
    let ss = inv_sqrt_slack(n, p);
    assert(ss == 12 * ni * bb);
    let v = ni * xi * xi;
    assert(v == (n * x * x) as int) by (nonlinear_arith)
        requires
            v == ni * xi * xi,
            ni == n,
            xi == x,
    ;
    let d = b2 - v;
    assert(d == inv_sqrt_error(n, p, x));
    let bound = b2 + ss * qq;
    assert(v <= 3 * b2);
    lemma_mul_strictly_positive(bb, bb);
    assert(16 * ss <= b2) by (nonlinear_arith)
        requires
            ss == 12 * ni * bb,
            256 * ni <= bb,
            b2 == bb * bb,
            ni >= 1,
            bb > 0,
    {
        assert((256 * ni) * bb <= bb * bb);
    }
    // |D| q <= b2 + S q, so 8 |D| <= b2
    let ad = if d >= 0 { d } else { -d };
    assert(ad * qq <= bound) by (nonlinear_arith)
        requires
            d * d * (qq * qq) <= bound * bound,
            ad == (if d >= 0 { d } else { -d }),
            bound >= 0,
            qq > 0,
    {
        if ad * qq > bound {
            assert((ad * qq) * (ad * qq) > bound * bound);
            assert(d * d * (qq * qq) == (ad * qq) * (ad * qq));
        }
    }
    assert(8 * ad <= b2) by (nonlinear_arith)
        requires
            ad * qq <= b2 + ss * qq,
            qq >= 16,
            16 * ss <= b2,
            ad >= 0,
    {
        assert(8 * ad * qq <= 8 * b2 + 8 * ss * qq);
        assert(8 * b2 <= b2 * qq / 2);
        assert(8 * ss * qq <= b2 * qq / 2);
    }
    // x >= 2 and x < 2 B
    assert(xi >= 2) by (nonlinear_arith)
        requires
            v == ni * xi * xi,
            8 * (b2 - v) <= b2,
            256 * ni <= bb,
            b2 == bb * bb,
            bb >= 1,
            xi >= 0,
    {
        if xi <= 1 {
            assert(v <= ni);
            assert(ni < bb);
            assert(bb <= b2);
        }
    }
    assert(xi < 2 * bb) by (nonlinear_arith)
        requires
            v == ni * xi * xi,
            v <= 3 * b2,
            ni >= 1,
            b2 == bb * bb,
            bb > 0,
            xi >= 0,
    {
        assert(xi * xi <= v);
        if xi >= 2 * bb {
            assert(xi * xi >= 4 * b2);
        }
    }
    let c0 = 3 * b2 - v;
    assert(c0 == 2 * b2 + d);
    let z = xi * c0;
    lemma_inv_sqrt_step_bracket(n, p, x);
    let y = inv_sqrt_step(n, p, x);
    let yi = y as int;
    assert(z == (x as int) * (3 * (bb * bb) - (n * x * x) as int));
    lemma_inv_sqrt_cube(ni, xi, b2);
    assert(ni * (z * z) == 4 * (b2 * b2 * b2) - 3 * b2 * (d * d) - d * d * d);
    let vy = ni * yi * yi;
    let dy = b2 - vy;
    // lower bound on n y^2: 4 b2^2 (b2 - n y^2) < D^2 (3 b2 + D) + 24 n B b2^2
    assert(z > 2 * b2) by (nonlinear_arith)
        requires
            z == xi * c0,
            xi >= 2,
            c0 == 2 * b2 + d,
            8 * ad <= b2,
            ad == (if d >= 0 { d } else { -d }),
            b2 > 0,
    ;
    assert(ni * z <= 6 * ni * bb * b2) by (nonlinear_arith)
        requires
            z == xi * c0,
            0 <= xi < 2 * bb,
            0 <= c0 <= 3 * b2,
            ni >= 1,
    {
        assert(z <= 2 * bb * (3 * b2));
    }
    let b4 = b2 * b2;
    let b6 = b2 * b2 * b2;
    let nz = ni * z;
    let zsq = ni * (z * z);
    let ysq = (2 * b2 * yi) * (2 * b2 * yi);
    let lsq = (z - 2 * b2) * (z - 2 * b2);
    assert(ysq > lsq) by (nonlinear_arith)
        requires
            2 * b2 * yi + 2 * b2 > z,
            z > 2 * b2,
            ysq == (2 * b2 * yi) * (2 * b2 * yi),
            lsq == (z - 2 * b2) * (z - 2 * b2),
    ;
    assert(ni * ysq > ni * lsq) by (nonlinear_arith)
        requires
            ysq > lsq,
            ni >= 1,
    ;
    assert(ni * ysq == 4 * b4 * vy) by (nonlinear_arith)
        requires
            ysq == (2 * b2 * yi) * (2 * b2 * yi),
            vy == ni * yi * yi,
            b4 == b2 * b2,
    ;
    assert(ni * lsq == zsq - 4 * b2 * nz + 4 * b4 * ni) by (nonlinear_arith)
        requires
            lsq == (z - 2 * b2) * (z - 2 * b2),
            zsq == ni * (z * z),
            nz == ni * z,
            b4 == b2 * b2,
    ;
    assert(4 * b2 * nz <= 24 * ni * bb * b4) by (nonlinear_arith)
        requires
            nz <= 6 * ni * bb * b2,
            b2 > 0,
            b4 == b2 * b2,
    ;
    assert(4 * b4 * ni >= 0) by (nonlinear_arith)
        requires
            b4 == b2 * b2,
            ni >= 1,
    ;
    assert(4 * b4 * dy == 4 * b6 - 4 * b4 * vy) by (nonlinear_arith)
        requires
            dy == b2 - vy,
            b4 == b2 * b2,
            b6 == b2 * b2 * b2,
    ;
    assert(d * d * (3 * b2 + d) == 3 * b2 * (d * d) + d * d * d) by (nonlinear_arith);
    assert(4 * (b2 * b2) * dy < d * d * (3 * b2 + d) + 24 * ni * bb * (b2 * b2));
    assert(d * d * (3 * b2 + d) <= 4 * b2 * (d * d)) by (nonlinear_arith)
        requires
            8 * ad <= b2,
            ad == (if d >= 0 { d } else { -d }),
    ;
    let half = 6 * ni * bb;
    assert(b2 * dy < d * d + half * b2) by (nonlinear_arith)
        requires
            4 * (b2 * b2) * dy < d * d * (3 * b2 + d) + 24 * ni * bb * (b2 * b2),
            d * d * (3 * b2 + d) <= 4 * b2 * (d * d),
            half == 6 * ni * bb,
            b2 > 0,
    {
        assert(4 * (b2 * b2) * dy == 4 * b2 * (b2 * dy));
        assert(24 * ni * bb * (b2 * b2) == 4 * b2 * (half * b2));
        assert(4 * b2 * (b2 * dy) < 4 * b2 * (d * d + half * b2));
    }
    let q2 = qq * qq;
    lemma_mul_strictly_positive(qq, qq);
    assert(2 * half == ss) by (nonlinear_arith)
        requires
            half == 6 * ni * bb,
            ss == 12 * ni * bb,
    ;
    let bound2 = b2 + ss * q2;
    assert(dy * q2 < bound2) by {
        let pp = b2 * ss * q2;
        let lhs = b2 * dy * q2;
        lemma_mul_nonnegative(b2 * ss, q2);
        assert(lhs < d * d * q2 + half * b2 * q2) by (nonlinear_arith)
            requires
                b2 * dy < d * d + half * b2,
                q2 > 0,
                lhs == b2 * dy * q2,
        ;
        assert(bound * bound == b2 * b2 + 2 * b2 * ss * qq + ss * ss * q2) by (nonlinear_arith)
            requires
                bound == b2 + ss * qq,
                q2 == qq * qq,
        ;
        assert(16 * (2 * b2 * ss * qq) <= 2 * pp) by (nonlinear_arith)
            requires
                q2 == qq * qq,
                qq >= 16,
                b2 > 0,
                ss >= 0,
                pp == b2 * ss * q2,
        ;
        assert(16 * (ss * ss * q2) <= pp) by (nonlinear_arith)
            requires
                16 * ss <= b2,
                ss >= 0,
                q2 >= 0,
                pp == b2 * ss * q2,
        ;
        assert(2 * (half * b2 * q2) == pp) by (nonlinear_arith)
            requires
                2 * half == ss,
                pp == b2 * ss * q2,
        ;
        assert(d * d * q2 <= bound * bound);
        assert(b2 * bound2 == b2 * b2 + pp) by (nonlinear_arith)
            requires
                bound2 == b2 + ss * q2,
                pp == b2 * ss * q2,
        ;
        assert(lhs < b2 * bound2);
        assert(dy * q2 < bound2) by (nonlinear_arith)
            requires
                lhs == b2 * dy * q2,
                lhs < b2 * bound2,
                b2 > 0,
        ;
    }
    // upper bound on n y^2: -D_y < S / 2
    let t = xi * ni * bb;
    let usq = (z + t) * (z + t);
    assert(ysq <= usq) by (nonlinear_arith)
        requires
            2 * b2 * yi <= z + t,
            yi >= 0,
            b2 > 0,
            ysq == (2 * b2 * yi) * (2 * b2 * yi),
            usq == (z + t) * (z + t),
    ;
    assert(ni * ysq <= ni * usq) by (nonlinear_arith)
        requires
            ysq <= usq,
            ni >= 1,
    ;
    let cross = ni * ni * xi * z;
    assert(usq == z * z + 2 * (z * t) + t * t) by (nonlinear_arith)
        requires
            usq == (z + t) * (z + t),
    ;
    assert(ni * usq == zsq + 2 * (ni * (z * t)) + ni * (t * t)) by (nonlinear_arith)
        requires
            usq == z * z + 2 * (z * t) + t * t,
            zsq == ni * (z * z),
    ;
    assert(ni * (z * t) == bb * cross) by (nonlinear_arith)
        requires
            t == xi * ni * bb,
            cross == ni * ni * xi * z,
    ;
    assert(ni * (t * t) == (ni * ni) * v * b2) by (nonlinear_arith)
        requires
            t == xi * ni * bb,
            v == ni * xi * xi,
            b2 == bb * bb,
    ;
    assert(cross == ni * v * c0) by (nonlinear_arith)
        requires
            cross == ni * ni * xi * z,
            z == xi * c0,
            v == ni * xi * xi,
    ;
    assert(ni * v * c0 <= 9 * ni * b4) by (nonlinear_arith)
        requires
            0 <= v <= 3 * b2,
            0 <= c0 <= 3 * b2,
            ni >= 1,
            b4 == b2 * b2,
    ;
    assert(2 * bb * cross <= 18 * ni * bb * b4) by (nonlinear_arith)
        requires
            cross <= 9 * ni * b4,
            bb > 0,
    ;
    assert((ni * ni) * v * b2 <= 3 * ni * bb * b4) by (nonlinear_arith)
        requires
            0 <= v <= 3 * b2,
            1 <= ni <= bb,
            b2 > 0,
            b4 == b2 * b2,
    {
        assert((ni * ni) * v * b2 <= (ni * ni) * (3 * b2) * b2);
        assert((ni * ni) <= ni * bb);
    }
    assert(d * d * (3 * b2 + d) >= 0) by (nonlinear_arith)
        requires
            d == b2 - v,
            v <= 3 * b2,
            b2 > 0,
    {
        assert(3 * b2 + d >= 0);
        assert(d * d >= 0);
    }
    assert(4 * b4 * (vy - b2) == 4 * b4 * vy - 4 * b6) by (nonlinear_arith)
        requires
            b4 == b2 * b2,
            b6 == b2 * b2 * b2,
    ;
    assert(zsq <= 4 * b6);
    let m = ni * bb * b4;
    assert(18 * ni * bb * b4 == 18 * m && 3 * ni * bb * b4 == 3 * m && 21 * ni * bb * (b2 * b2) == 21 * m) by (nonlinear_arith)
        requires
            m == ni * bb * b4,
            b4 == b2 * b2,
    ;
    assert(2 * (ni * (z * t)) <= 18 * m) by (nonlinear_arith)
        requires
            ni * (z * t) == bb * cross,
            2 * bb * cross <= 18 * ni * bb * b4,
            18 * ni * bb * b4 == 18 * m,
    ;
    assert(ni * (t * t) <= 3 * m);
    assert(ni * usq <= 4 * b6 + 21 * m);
    assert(4 * b4 * vy <= 4 * b6 + 21 * m);
    assert(4 * (b2 * b2) * (vy - b2) <= 21 * ni * bb * (b2 * b2));
    assert(-dy * q2 < bound2) by (nonlinear_arith)
        requires
            4 * (b2 * b2) * (vy - b2) <= 21 * ni * bb * (b2 * b2),
            dy == b2 - vy,
            bound2 == b2 + ss * q2,
            ss == 12 * ni * bb,
            q2 > 0,
            b2 > 0,
            ni >= 1,
            bb > 0,
    {
        assert(4 * (vy - b2) <= 21 * ni * bb);
        assert(-dy < ss);
        assert(-dy * q2 < ss * q2);
    }
    assert(dy * dy * (q2 * q2) <= bound2 * bound2) by (nonlinear_arith)
        requires
            dy * q2 < bound2,
            -dy * q2 < bound2,
            q2 > 0,
    {
        assert(dy * dy * (q2 * q2) == (dy * q2) * (dy * q2));
    }
    lemma_inv_sqrt_step(n, p, x);
    assert(pow2(2 * a) as int == q2);
    assert(vy == (n * y * y) as int) by (nonlinear_arith)
        requires
            vy == ni * yi * yi,
            ni == n,
            yi == y,
    ;
    assert(dy == inv_sqrt_error(n, p, y));
}

/// For at least 63 fraction bits the seed is close at 29 bits: its square
/// times `n` falls short of `4^p` by less than `n (2 s + 1)` in units of
/// `4^(p - 63)`, where `s` is the integer square root of `2^126 / n`.
pub proof fn lemma_inv_sqrt_seed_close(n: nat, p: nat)
    requires
        1 <= n < 0x1_0000_0000_0000_0000,
        p >= 63,
    ensures
        inv_sqrt_close(n, p, inv_sqrt_seed_value(n, p), 29),
{
    let q = pow2(126) / n;
    let s0 = isqrt(q);
    lemma_isqrt(q);
    lemma_inv_sqrt_seed(n, p);
    lemma_fundamental_div_mod(pow2(126) as int, n as int);
    lemma_mod_bound(pow2(126) as int, n as int);
    let k = (p - 63) as nat;
    let x0 = inv_sqrt_seed_value(n, p);
    assert(x0 == s0 * pow2(k));
    lemma_pow2_adds(k, k);
    lemma_pow2_adds(126, k + k);
    lemma_pow2_adds(p, p);
    assert(126 + (k + k) == 2 * p);
    lemma_pow2_pos(k + k);
    lemma2_to64();
    lemma2_to64_rest();
    let t = pow2(126) as int;
    lemma_pow2_pos(126);
    let ni = n as int;
    let si = s0 as int;
    let qi = q as int;
    let r = t - ni * (si * si);
    assert(0 <= r < ni * (2 * si + 1)) by (nonlinear_arith)
        requires
            si * si <= qi,
            qi < (si + 1) * (si + 1),
            t == ni * qi + t % ni,
            0 <= t % ni < ni,
            r == t - ni * (si * si),
            ni >= 1,
    {
        assert(ni * (si * si) <= ni * qi);
        assert(t < ni * (qi + 1));
        assert(ni * (qi + 1) <= ni * ((si + 1) * (si + 1)));
    }
    // n s0 < 2^95, so r 2^29 < 2^126
    assert(pow2(95) as int * pow2(95) as int == pow2(190) as int) by {
        lemma_pow2_adds(95, 95);
    }
    lemma_pow2_adds(64, 126);
    assert(ni * si < pow2(95) as int) by (nonlinear_arith)
        requires
            ni * (si * si) <= t,
            ni < pow2(64) as int,
            pow2(64) as int * t == pow2(190) as int,
            pow2(95) as int * pow2(95) as int == pow2(190) as int,
            ni >= 1,
            si >= 0,
            t > 0,
    {
        assert((ni * si) * (ni * si) == ni * (ni * (si * si)));
        assert(ni * (ni * (si * si)) <= ni * t);
        assert(ni * t < pow2(64) as int * t);
        if ni * si >= pow2(95) as int {
            assert((ni * si) * (ni * si) >= (pow2(95) as int) * (pow2(95) as int));
        }
    }
    assert(pow2(95) as int == 2 * pow2(94) as int) by {
        lemma_pow2_adds(94, 1);
    }
    lemma_pow2_adds(63, 63);
    lemma_pow2_adds(32, 63);
    assert(t == 0x4000_0000_0000_0000_0000_0000_0000_0000);
    assert(pow2(95) as int == 0x8000_0000_0000_0000_0000_0000);
    assert(r * (pow2(29) as int) <= t) by (nonlinear_arith)
        requires
            r < ni * (2 * si + 1),
            ni * si < pow2(95) as int,
            ni < pow2(64) as int,
            pow2(64) as int == 0x1_0000_0000_0000_0000,
            pow2(29) as int == 0x2000_0000,
            t == 0x4000_0000_0000_0000_0000_0000_0000_0000,
            pow2(95) as int == 0x8000_0000_0000_0000_0000_0000,
            r >= 0,
    ;
    let bb = pow2(p) as int;
    let b2 = bb * bb;
    let kk = pow2(k + k) as int;
    assert(b2 == t * kk);
    let e = inv_sqrt_error(n, p, x0);
    assert(e == kk * r) by (nonlinear_arith)
        requires
            e == b2 - (n * x0 * x0) as int,
            x0 == s0 * pow2(k),
            kk == pow2(k) * pow2(k),
            b2 == t * kk,
            r == t - ni * (si * si),
            ni == n,
            si == s0,
    ;
    let qq = pow2(29) as int;
    let ss = inv_sqrt_slack(n, p);
    let bound = pow2(2 * p) as int + ss * qq;
    assert(ss >= 0);
    assert(e * e * (qq * qq) <= bound * bound) by (nonlinear_arith)
        requires
            e == kk * r,
            r * qq <= t,
            r >= 0,
            kk > 0,
            qq > 0,
            bound == b2 + ss * qq,
            b2 == t * kk,
            ss >= 0,
    {
        assert(e * qq <= b2);
        assert(e * qq >= 0);
        assert((e * qq) * (e * qq) <= b2 * b2);
        assert(b2 <= bound);
        assert(b2 * b2 <= bound * bound);
        assert(e * e * (qq * qq) == (e * qq) * (e * qq));
    }
    assert(n * x0 * x0 <= 3 * pow2(2 * p));
}

/// Below 63 fraction bits the seed's shortfall is already within the slack:
/// `0 <= 4^p - n x^2 <= 12 n 2^p`, so it is close at any number of bits.
pub proof fn lemma_inv_sqrt_seed_close_short(n: nat, p: nat)
    requires
        n >= 1,
        p < 63,
    ensures
        inv_sqrt_close(n, p, inv_sqrt_seed_value(n, p), 29),
{
    let q = pow2(126) / n;
    let s0 = isqrt(q);
    lemma_isqrt(q);
    lemma_inv_sqrt_seed(n, p);
    lemma_pow2_pos(126);
    lemma_fundamental_div_mod(pow2(126) as int, n as int);
    lemma_mod_bound(pow2(126) as int, n as int);
    let k = (63 - p) as nat;
    let x0 = inv_sqrt_seed_value(n, p);
    assert(x0 == s0 / pow2(k));
    lemma_pow2_pos(k);
    lemma_fundamental_div_mod(s0 as int, pow2(k) as int);
    lemma_mod_bound(s0 as int, pow2(k) as int);
    lemma_pow2_adds(k, k);
    lemma_pow2_adds(p, p);
    lemma_pow2_adds(2 * p, k + k);
    assert(2 * p + (k + k) == 126);
    lemma_pow2_adds(p, k + k);
    lemma_pow2_adds(63, 63);
    lemma_pow2_adds(1, 63);
    crate::limbs::lemma_pow2_increases(63, (p + (k + k)) as nat);
    crate::limbs::lemma_pow2_increases(k + k, (p + (k + k)) as nat);
    lemma2_to64();
    let t = pow2(126) as int;
    let ni = n as int;
    let si = s0 as int;
    let qi = q as int;
    let xi = x0 as int;
    let kk = pow2(k) as int;
    let k2 = pow2(k + k) as int;
    let bb = pow2(p) as int;
    let xx = bb * k2;
    let h = pow2(63) as int;
    assert(k2 == kk * kk);
    assert(t == bb * bb * k2);
    assert(xx >= h && k2 <= xx);
    assert(t == h * h);
    // s0 <= 2^63 and x0 <= 2^p
    assert(si <= h) by (nonlinear_arith)
        requires
            si * si <= qi,
            ni * qi <= t,
            ni >= 1,
            t == h * h,
            h > 0,
            si >= 0,
    {
        assert(si * si <= ni * (si * si));
        assert(ni * (si * si) <= ni * qi);
        if si > h {
            assert(si * si > h * h);
        }
    }
    assert(kk * xi <= si < kk * (xi + 1)) by (nonlinear_arith)
        requires
            si == kk * xi + si % kk,
            0 <= si % kk < kk,
    ;
    assert(h == kk * bb) by {
        lemma_pow2_adds(k, p);
        assert(k + p == 63);
    }
    assert(xi <= bb) by (nonlinear_arith)
        requires
            kk * xi <= si,
            si <= h,
            h == kk * bb,
            kk > 0,
    ;
    // 2^126 - n s0^2 < n (2 s0 + 1)
    assert(t - ni * (si * si) < ni * (2 * si + 1)) by (nonlinear_arith)
        requires
            qi < (si + 1) * (si + 1),
            t == ni * qi + t % ni,
            0 <= t % ni < ni,
            ni >= 1,
    {
        assert(t < ni * (qi + 1));
        assert(ni * (qi + 1) <= ni * ((si + 1) * (si + 1)));
    }
    // n s0^2 < k2 (n x0^2 + 2 n x0 + n)
    assert(ni * (si * si) < k2 * (ni * (xi * xi)) + k2 * (ni * (2 * xi + 1))) by (nonlinear_arith)
        requires
            0 <= si < kk * (xi + 1),
            k2 == kk * kk,
            ni >= 1,
            xi >= 0,
    {
        assert(si * si < (kk * (xi + 1)) * (kk * (xi + 1)));
        assert(ni * (si * si) < ni * ((kk * (xi + 1)) * (kk * (xi + 1))));
    }
    let e = inv_sqrt_error(n, p, x0);
    assert(e == bb * bb - ni * (xi * xi)) by (nonlinear_arith)
        requires
            e == (pow2(2 * p) as int) - (n * x0 * x0) as int,
            pow2(2 * p) as int == bb * bb,
            ni == n,
            xi == x0,
    ;
    let ss = inv_sqrt_slack(n, p);
    assert(k2 * e <= k2 * ss) by (nonlinear_arith)
        requires
            e == bb * bb - ni * (xi * xi),
            t == bb * bb * k2,
            t - ni * (si * si) < ni * (2 * si + 1),
            ni * (si * si) < k2 * (ni * (xi * xi)) + k2 * (ni * (2 * xi + 1)),
            ss == 12 * ni * bb,
            si <= h,
            xi <= bb,
            xx == bb * k2,
            h <= xx,
            k2 <= xx,
            h >= 1,
            ni >= 1,
    {
        assert(k2 * e < ni * (2 * si + 1) + k2 * (ni * (2 * xi + 1)));
        assert(2 * si + 1 <= 3 * xx);
        assert(k2 * (2 * xi + 1) <= 2 * xx + xx);
        assert(ni * (2 * si + 1) <= ni * (3 * xx));
        assert(k2 * (ni * (2 * xi + 1)) == ni * (k2 * (2 * xi + 1)));
        assert(ni * (k2 * (2 * xi + 1)) <= ni * (3 * xx));
        assert(k2 * ss == 12 * ni * xx);
    }
    lemma_pow2_pos(k + k);
    assert(0 <= e <= ss) by (nonlinear_arith)
        requires
            k2 * e <= k2 * ss,
            k2 > 0,
            e == bb * bb - ni * (xi * xi),
            (n * x0 * x0) as int <= bb * bb,
            ni == n,
            xi == x0,
    ;
    let qq = pow2(29) as int;
    lemma_pow2_pos(29);
    let bound = pow2(2 * p) as int + ss * qq;
    assert(e * e * (qq * qq) <= bound * bound) by (nonlinear_arith)
        requires
            0 <= e <= ss,
            qq > 0,
            bound == bb * bb + ss * qq,
    {
        assert(e * qq <= ss * qq);
        assert(0 <= e * qq <= bound);
        assert(e * e * (qq * qq) == (e * qq) * (e * qq));
    }
    assert(n * x0 * x0 <= 3 * pow2(2 * p));
}

/// After `k` steps from a seed close at 29 bits the iterate is close at
/// `29 * 2^k` bits.
pub proof fn lemma_inv_sqrt_iter_close(n: nat, p: nat, x0: nat, k: nat)
    requires
        n >= 1,
        256 * n <= pow2(p),
        inv_sqrt_close(n, p, x0, 29),
    ensures
        inv_sqrt_close(n, p, inv_sqrt_iter(n, p, x0, k), 29 * pow2(k)),
    decreases k,
{
    lemma2_to64();
    if k == 0 {
        assert(29 * pow2(0) == 29);
    } else {
        let j = (k - 1) as nat;
        lemma_inv_sqrt_iter_close(n, p, x0, j);
        lemma_pow2_pos(j);
        lemma_pow2_adds(j, 1);
        assert(29 * pow2(j) >= 4) by (nonlinear_arith)
            requires
                pow2(j) > 0,
        ;
        lemma_inv_sqrt_step_close(n, p, inv_sqrt_iter(n, p, x0, j), 29 * pow2(j));
        assert(2 * (29 * pow2(j)) == 29 * pow2(k)) by {
            assert(pow2(k) == pow2(j) * 2);
        }
    }
}

/// The finished inverse square root iteration is accurate on the square:
/// `|4^p - n x^2| <= 12 n 2^p`, for `n <= 2^(p - 8)`.
pub proof fn lemma_inv_sqrt_accurate(n: nat, p: nat)
    requires
        1 <= n < 0x1_0000_0000_0000_0000,
        256 * n <= pow2(p),
    ensures
        ({
            let x = inv_sqrt_iter(n, p, inv_sqrt_seed_value(n, p), 2 + newton_steps(48, p + 8));
            &&& pow2(2 * p) <= n * x * x + 12 * n * pow2(p)
            &&& n * x * x <= pow2(2 * p) + 12 * n * pow2(p)
        }),
{
    let j = newton_steps(48, p + 8);
    let k = 2 + j;
    let x0 = inv_sqrt_seed_value(n, p);
    let x = inv_sqrt_iter(n, p, x0, k);
    if p >= 63 {
        lemma_inv_sqrt_seed_close(n, p);
    } else {
        lemma_inv_sqrt_seed_close_short(n, p);
    }
    lemma_inv_sqrt_iter_close(n, p, x0, k);
    lemma_newton_steps_reach(48, p + 8);
    lemma_pow2_adds(j, 2);
    lemma2_to64();
    let a = 29 * pow2(k);
    assert(a >= 2 * p + 1) by (nonlinear_arith)
        requires
            48 * pow2(j) >= p + 8,
            pow2(k) == pow2(j) * 4,
            a == 29 * pow2(k),
    ;
    lemma_pow2_strictly_increases(2 * p, a);
    lemma_pow2_pos(p);
    lemma_pow2_adds(p, p);
    let e = inv_sqrt_error(n, p, x);
    let b2 = pow2(2 * p) as int;
    let qq = pow2(a) as int;
    let ss = inv_sqrt_slack(n, p);
    let bound = b2 + ss * qq;
    assert(ss >= 0);
    lemma_pow2_pos(2 * p);
    assert(0 < b2 < qq);
    assert(-ss <= e <= ss) by (nonlinear_arith)
        requires
            e * e * (qq * qq) <= bound * bound,
            bound == b2 + ss * qq,
            0 < b2 < qq,
            ss >= 0,
    {
        let ae = if e >= 0 { e } else { -e };
        assert(e * e * (qq * qq) == (ae * qq) * (ae * qq));
        assert(ae * qq <= bound) by {
            if ae * qq > bound {
                assert((ae * qq) * (ae * qq) > bound * bound);
            }
        }
        assert(ae * qq < (ss + 1) * qq);
    }
    assert(ss == 12 * n * pow2(p));
}
} // verus!
