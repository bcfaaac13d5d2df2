//! Integer square roots.
use vstd::prelude::*;
use vstd::arithmetic::mul::*;
use vstd::arithmetic::div_mod::*;
use vstd::arithmetic::power2::*;

verus! {

/// The integer square root, digit pair by digit pair.
pub open spec fn isqrt(v: nat) -> nat
    decreases v,
{
    if v == 0 {
        0
    } else {
        let r = 2 * isqrt(v / 4);
        if (r + 1) * (r + 1) <= v {
            r + 1
        } else {
            r
        }
    }
}

/// `isqrt(v)` is the largest square root below `v`.
pub proof fn lemma_isqrt(v: nat)
    ensures
        isqrt(v) * isqrt(v) <= v,
        v < (isqrt(v) + 1) * (isqrt(v) + 1),
    decreases v,
{
    if v > 0 {
        lemma_isqrt(v / 4);
        let q = isqrt(v / 4);
        let f = v / 4;
        assert(v == 4 * f + v % 4);
        assert((2 * q) * (2 * q) <= v) by (nonlinear_arith)
            requires
                q * q <= f,
                v >= 4 * f,
        ;
        assert(v < (2 * q + 2) * (2 * q + 2)) by (nonlinear_arith)
            requires
                f < (q + 1) * (q + 1),
                v < 4 * f + 4,
        ;
        let r = 2 * q;
        let t = isqrt(v);
        if (r + 1) * (r + 1) <= v {
            assert(t == r + 1);
            assert(t * t <= v && v < (t + 1) * (t + 1)) by (nonlinear_arith)
                requires
                    t == r + 1,
                    (r + 1) * (r + 1) <= v,
                    v < (r + 2) * (r + 2),
            ;
        } else {
            assert(t == r);
            assert(t * t <= v && v < (t + 1) * (t + 1)) by (nonlinear_arith)
                requires
                    t == r,
                    r * r <= v,
                    v < (r + 1) * (r + 1),
            ;
        }
    } else {
        assert(isqrt(v) == 0);
        assert((isqrt(v) + 1) * (isqrt(v) + 1) == 1) by (nonlinear_arith)
            requires
                isqrt(v) == 0,
        ;
    }
}

/// A number bracketed between consecutive squares is `isqrt`.
pub proof fn lemma_isqrt_unique(v: nat, r: nat)
    requires
        r * r <= v,
        v < (r + 1) * (r + 1),
    ensures
        isqrt(v) == r,
{
    lemma_isqrt(v);
    let s = isqrt(v);
    if s < r {
        assert((s + 1) * (s + 1) <= r * r) by (nonlinear_arith)
            requires
                s + 1 <= r,
        ;
    } else if s > r {
        assert((r + 1) * (r + 1) <= s * s) by (nonlinear_arith)
            requires
                r + 1 <= s,
        ;
    }
}

/// The integer square root of a 128-bit number, by bisection.
pub fn isqrt_u128(v: u128) -> (r: u64)
    ensures
        r == isqrt(v as nat),
{
    let mut lo: u128 = 0;
    let mut hi: u128 = 0x1_0000_0000_0000_0000;
    proof {
        assert(v < hi * hi) by (nonlinear_arith)
            requires
                v <= 0xffff_ffff_ffff_ffff_ffff_ffff_ffff_ffff,
                hi == 0x1_0000_0000_0000_0000,
        ;
    }
    while hi - lo > 1
        invariant
            lo < hi <= 0x1_0000_0000_0000_0000,
            lo * lo <= v,
            v < hi * hi,
        decreases hi - lo,
    {
        let mid = lo + (hi - lo) / 2;
        proof {
            assert(mid * mid <= 0xffff_ffff_ffff_ffff * 0xffff_ffff_ffff_ffff) by (nonlinear_arith)
                requires
                    mid < 0x1_0000_0000_0000_0000,
            ;
        }
        if mid * mid <= v {
            lo = mid;
        } else {
            hi = mid;
        }
    }
    proof {
        lemma_isqrt_unique(v as nat, lo as nat);
    }
    lo as u64
}


} // verus!
