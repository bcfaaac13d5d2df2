//! The mathematical model shared by the limb-based integer types: a sequence of
//! 64-bit limbs, least significant first, denotes a natural number in base 2^64.
use vstd::prelude::*;
use vstd::arithmetic::mul::*;
use vstd::arithmetic::power2::*;
use vstd::arithmetic::div_mod::*;

verus! {

/// The radix of one limb.
pub open spec fn base() -> nat {
    0x1_0000_0000_0000_0000
}

/// `base()` raised to `n`.
pub open spec fn bpow(n: nat) -> nat
    decreases n,
{
    if n == 0 {
        1
    } else {
        base() * bpow((n - 1) as nat)
    }
}

/// The number denoted by `s`, least significant limb first.
pub open spec fn limbs_value(s: Seq<u64>) -> nat
    decreases s.len(),
{
    if s.len() == 0 {
        0
    } else {
        (s[0] as nat) + base() * limbs_value(s.skip(1))
    }
}

/// No most-significant zero limb.
pub open spec fn is_normalized(s: Seq<u64>) -> bool {
    s.len() == 0 || s.last() != 0
}

pub proof fn lemma_bpow_pos(n: nat)
    ensures
        bpow(n) > 0,
    decreases n,
{
    if n > 0 {
        lemma_bpow_pos((n - 1) as nat);
        lemma_mul_strictly_positive(base() as int, bpow((n - 1) as nat) as int);
    }
}

pub proof fn lemma_bpow_add(a: nat, b: nat)
    ensures
        bpow(a + b) == bpow(a) * bpow(b),
    decreases a,
{
    if a > 0 {
        let a1 = (a - 1) as nat;
        lemma_bpow_add(a1, b);
        assert(a + b == (a1 + b) + 1);
        assert(bpow(a + b) == base() * bpow(a1 + b));
        assert(bpow(a) == base() * bpow(a1));
        lemma_mul_is_associative(base() as int, bpow(a1) as int, bpow(b) as int);
        assert(bpow(a + b) == bpow(a) * bpow(b));
    } else {
        assert(bpow(0) == 1);
        assert(bpow(a + b) == bpow(b));
        assert(bpow(a) * bpow(b) == bpow(b));
    }
}

pub proof fn lemma_bpow_mono(a: nat, b: nat)
    requires
        a <= b,
    ensures
        bpow(a) <= bpow(b),
{
    lemma_bpow_add(a, (b - a) as nat);
    lemma_bpow_pos((b - a) as nat);
    lemma_bpow_pos(a);
    lemma_mul_increases(bpow((b - a) as nat) as int, bpow(a) as int);
    lemma_mul_is_commutative(bpow((b - a) as nat) as int, bpow(a) as int);
}

/// The value of a concatenation.
pub proof fn lemma_value_concat(a: Seq<u64>, b: Seq<u64>)
    ensures
        limbs_value(a + b) == limbs_value(a) + bpow(a.len()) * limbs_value(b),
    decreases a.len(),
{
    if a.len() == 0 {
        assert(a + b =~= b);
        assert(bpow(0) == 1);
        assert(limbs_value(a) == 0);
    } else {
        let rest = a.skip(1);
        assert((a + b).skip(1) =~= rest + b);
        lemma_value_concat(rest, b);
        assert(limbs_value(a + b) == a[0] + base() * (limbs_value(rest) + bpow(rest.len())
            * limbs_value(b)));
        lemma_mul_is_distributive_add(
            base() as int,
            limbs_value(rest) as int,
            (bpow(rest.len()) * limbs_value(b)) as int,
        );
        lemma_mul_is_associative(base() as int, bpow(rest.len()) as int, limbs_value(b) as int);
    }
}

pub proof fn lemma_value_push(s: Seq<u64>, x: u64)
    ensures
        limbs_value(s.push(x)) == limbs_value(s) + x * bpow(s.len()),
{
    let one = seq![x];
    assert(s.push(x) =~= s + one);
    lemma_value_concat(s, one);
    assert(one.skip(1) =~= Seq::<u64>::empty());
    assert(limbs_value(one.skip(1)) == 0);
    assert(limbs_value(one) == x);
    lemma_mul_is_commutative(x as int, bpow(s.len()) as int);
}

pub proof fn lemma_value_split(s: Seq<u64>, i: int)
    requires
        0 <= i <= s.len(),
    ensures
        limbs_value(s) == limbs_value(s.take(i)) + bpow(i as nat) * limbs_value(s.skip(i)),
{
    assert(s =~= s.take(i) + s.skip(i));
    lemma_value_concat(s.take(i), s.skip(i));
}

pub proof fn lemma_value_take_step(s: Seq<u64>, i: int)
    requires
        0 <= i < s.len(),
    ensures
        limbs_value(s.take(i + 1)) == limbs_value(s.take(i)) + s[i] * bpow(i as nat),
{
    assert(s.take(i + 1) =~= s.take(i).push(s[i]));
    lemma_value_push(s.take(i), s[i]);
}

pub proof fn lemma_value_skip_step(s: Seq<u64>, i: int)
    requires
        0 <= i < s.len(),
    ensures
        limbs_value(s.skip(i)) == s[i] + base() * limbs_value(s.skip(i + 1)),
{
    assert(s.skip(i).skip(1) =~= s.skip(i + 1));
}

pub proof fn lemma_value_bound(s: Seq<u64>)
    ensures
        limbs_value(s) < bpow(s.len()),
    decreases s.len(),
{
    if s.len() > 0 {
        lemma_value_bound(s.skip(1));
        let r = limbs_value(s.skip(1));
        assert(r + 1 <= bpow((s.len() - 1) as nat));
        lemma_mul_inequality(r + 1int, bpow((s.len() - 1) as nat) as int, base() as int);
        lemma_mul_is_commutative(r + 1int, base() as int);
        lemma_mul_is_commutative(bpow((s.len() - 1) as nat) as int, base() as int);
        lemma_mul_is_distributive_add(base() as int, r as int, 1int);
    }
}

/// A normalized nonempty sequence is at least the weight of its top limb.
pub proof fn lemma_value_lower(s: Seq<u64>)
    requires
        s.len() > 0,
        s.last() != 0,
    ensures
        limbs_value(s) >= bpow((s.len() - 1) as nat),
{
    let n = (s.len() - 1) as int;
    assert(s =~= s.take(n).push(s.last()));
    lemma_value_push(s.take(n), s.last());
    lemma_bpow_pos(n as nat);
    lemma_mul_increases(s.last() as int, bpow(n as nat) as int);
    lemma_mul_is_commutative(s.last() as int, bpow(n as nat) as int);
}

/// A zero top limb does not change the value.
pub proof fn lemma_value_drop_zero(s: Seq<u64>)
    requires
        s.len() > 0,
        s.last() == 0,
    ensures
        limbs_value(s) == limbs_value(s.drop_last()),
{
    assert(s =~= s.drop_last().push(0));
    lemma_value_push(s.drop_last(), 0);
}

/// All-zero sequences denote zero, and only they.
pub proof fn lemma_value_zero(s: Seq<u64>)
    ensures
        limbs_value(s) == 0 <==> (forall|i: int| 0 <= i < s.len() ==> s[i] == 0),
    decreases s.len(),
{
    if s.len() > 0 {
        lemma_value_zero(s.skip(1));
        if limbs_value(s) == 0 {
            lemma_mul_nonnegative(base() as int, limbs_value(s.skip(1)) as int);
            assert(limbs_value(s.skip(1)) == 0) by {
                if limbs_value(s.skip(1)) > 0 {
                    lemma_mul_increases(limbs_value(s.skip(1)) as int, base() as int);
                    lemma_mul_is_commutative(limbs_value(s.skip(1)) as int, base() as int);
                }
            }
            assert forall|i: int| 0 <= i < s.len() implies s[i] == 0 by {
                if i > 0 {
                    assert(s.skip(1)[i - 1] == s[i]);
                }
            }
        }
        if forall|i: int| 0 <= i < s.len() ==> s[i] == 0 {
            assert forall|i: int| 0 <= i < s.skip(1).len() implies s.skip(1)[i] == 0 by {
                assert(s.skip(1)[i] == s[i + 1]);
            }
            assert(s[0] == 0);
        }
    }
}

/// Two normalized sequences with the same value are equal.
pub proof fn lemma_normalized_unique(a: Seq<u64>, b: Seq<u64>)
    requires
        is_normalized(a),
        is_normalized(b),
        limbs_value(a) == limbs_value(b),
    ensures
        a == b,
    decreases a.len(),
{
    if a.len() == 0 {
        if b.len() > 0 {
            lemma_value_lower(b);
            lemma_bpow_pos((b.len() - 1) as nat);
        }
        assert(a =~= b);
    } else if b.len() == 0 {
        lemma_value_lower(a);
        lemma_bpow_pos((a.len() - 1) as nat);
    } else {
        let ra = a.skip(1);
        let rb = b.skip(1);
        // value = s[0] + base * rest, with s[0] < base: both parts agree.
        lemma_fundamental_div_mod_converse_nat(limbs_value(a), a[0] as nat, limbs_value(ra));
        lemma_fundamental_div_mod_converse_nat(limbs_value(b), b[0] as nat, limbs_value(rb));
        assert(is_normalized(ra)) by {
            if ra.len() > 0 {
                assert(ra.last() == a.last());
            }
        }
        assert(is_normalized(rb)) by {
            if rb.len() > 0 {
                assert(rb.last() == b.last());
            }
        }
        lemma_normalized_unique(ra, rb);
        assert(a =~= b) by {
            assert forall|i: int| 0 <= i < a.len() implies a[i] == b[i] by {
                if i > 0 {
                    assert(ra[i - 1] == a[i]);
                    assert(rb[i - 1] == b[i]);
                }
            }
        }
    }
}

/// Quotient and remainder of `lo + base * hi` by `base`.
pub proof fn lemma_fundamental_div_mod_converse_nat(v: nat, lo: nat, hi: nat)
    requires
        lo < base(),
        v == lo + base() * hi,
    ensures
        v % base() == lo,
        v / base() == hi,
{
    vstd::arithmetic::div_mod::lemma_fundamental_div_mod_converse(
        v as int,
        base() as int,
        hi as int,
        lo as int,
    );
}

/// The number of binary digits of `v` (zero has none).
pub open spec fn bit_len(v: nat) -> nat
    decreases v,
{
    if v == 0 {
        0
    } else {
        1 + bit_len(v / 2)
    }
}

/// `bpow` in terms of powers of two.
pub proof fn lemma_bpow_pow2(n: nat)
    ensures
        bpow(n) == pow2(64 * n),
    decreases n,
{
    if n == 0 {
        lemma2_to64();
    } else {
        lemma_bpow_pow2((n - 1) as nat);
        lemma2_to64_rest();
        lemma_pow2_adds(64, 64 * (n - 1) as nat);
        assert(64 + 64 * (n - 1) as nat == 64 * n);
    }
}

/// `v` has `bit_len(v)` digits: it lies below `2^bit_len(v)` and, when
/// nonzero, at or above `2^(bit_len(v) - 1)`.
pub proof fn lemma_bit_len_bounds(v: nat)
    ensures
        v < pow2(bit_len(v)),
        v > 0 ==> pow2((bit_len(v) - 1) as nat) <= v,
    decreases v,
{
    lemma2_to64();
    if v > 0 {
        lemma_bit_len_bounds(v / 2);
        lemma_pow2_unfold(bit_len(v));
        if v / 2 > 0 {
            lemma_pow2_unfold((bit_len(v) - 1) as nat);
        }
    }
}

/// The bit length is determined by the power-of-two bracket.
pub proof fn lemma_bit_len_unique(v: nat, k: nat)
    requires
        v < pow2(k),
        k > 0 ==> pow2((k - 1) as nat) <= v,
    ensures
        bit_len(v) == k,
{
    lemma_bit_len_bounds(v);
    lemma_pow2_pos(k);
    if bit_len(v) < k {
        lemma_pow2_increases(bit_len(v), (k - 1) as nat);
    } else if bit_len(v) > k {
        lemma_pow2_increases(k, (bit_len(v) - 1) as nat);
    }
}

/// Powers of two are monotone.
pub proof fn lemma_pow2_increases(a: nat, b: nat)
    requires
        a <= b,
    ensures
        pow2(a) <= pow2(b),
{
    if a < b {
        lemma_pow2_strictly_increases(a, b);
    }
}

/// Limb `i` of `s`, reading missing limbs as zero.
pub open spec fn digit(s: Seq<u64>, i: int) -> nat {
    if 0 <= i < s.len() {
        s[i] as nat
    } else {
        0
    }
}

/// The value of the lowest `n` limbs of `s`, missing limbs read as zero.
pub open spec fn prefix_value(s: Seq<u64>, n: nat) -> nat
    decreases n,
{
    if n == 0 {
        0
    } else {
        prefix_value(s, (n - 1) as nat) + digit(s, n - 1) * bpow((n - 1) as nat)
    }
}

pub proof fn lemma_prefix_value(s: Seq<u64>, n: nat)
    ensures
        n <= s.len() ==> prefix_value(s, n) == limbs_value(s.take(n as int)),
        n >= s.len() ==> prefix_value(s, n) == limbs_value(s),
    decreases n,
{
    if n == 0 {
        assert(s.take(0) =~= Seq::<u64>::empty());
        if s.len() == 0 {
            assert(limbs_value(s) == 0);
        }
    } else {
        lemma_prefix_value(s, (n - 1) as nat);
        if n <= s.len() {
            lemma_value_take_step(s, n - 1);
            if n == s.len() {
                assert(s.take(n as int) =~= s);
            }
        } else {
            assert(digit(s, n - 1) == 0);
            assert(prefix_value(s, n) == prefix_value(s, (n - 1) as nat));
        }
    }
}

/// Replacing limb `k` changes the value by the difference at weight `bpow(k)`.
pub proof fn lemma_value_update(s: Seq<u64>, k: int, x: u64)
    requires
        0 <= k < s.len(),
    ensures
        limbs_value(s.update(k, x)) + s[k] * bpow(k as nat) == limbs_value(s) + x * bpow(k as nat),
{
    let t = s.update(k, x);
    lemma_value_split(s, k);
    lemma_value_split(t, k);
    assert(s.take(k) =~= t.take(k));
    lemma_value_skip_step(s, k);
    lemma_value_skip_step(t, k);
    assert(s.skip(k + 1) =~= t.skip(k + 1));
    let r = limbs_value(s.skip(k + 1));
    lemma_mul_is_distributive_add(bpow(k as nat) as int, s[k] as int, (base() * r) as int);
    lemma_mul_is_distributive_add(bpow(k as nat) as int, x as int, (base() * r) as int);
    lemma_mul_is_commutative(bpow(k as nat) as int, s[k] as int);
    lemma_mul_is_commutative(bpow(k as nat) as int, x as int);
}

/// Splitting a 128-bit word into its low limb and its carry.
pub proof fn lemma_split_u128(v: u128)
    ensures
        (v as u64) as nat == (v as nat) % base(),
        (v >> 64u128) as nat == (v as nat) / base(),
        v == (v as u64) + base() * (v >> 64u128),
{
    assert((v as u64) as nat == v % 0x1_0000_0000_0000_0000u128) by (bit_vector);
    assert((v >> 64u128) == v / 0x1_0000_0000_0000_0000u128) by (bit_vector);
    vstd::arithmetic::div_mod::lemma_fundamental_div_mod(v as int, base() as int);
}

/// One carry-propagation step: writing the low limb `lo` of `s = x + c` at
/// weight `w` and carrying `hi` keeps the running sum.
pub proof fn lemma_carry_step(v: int, c: int, w: int, s: int, lo: int, hi: int, p: int, x: int)
    by (nonlinear_arith)
    requires
        v + c * w == p,
        s == lo + base() * hi,
        s == x + c,
    ensures
        v + lo * w + hi * (base() * w) == p + x * w,
{
}

/// A normalized sequence whose value reaches the weight of its top position
/// stays normalized: a zero top limb would leave it below that weight.
pub proof fn lemma_normalized_by_value(s: Seq<u64>)
    requires
        s.len() > 0,
        limbs_value(s) >= bpow((s.len() - 1) as nat),
    ensures
        s.last() != 0,
{
    if s.last() == 0 {
        lemma_value_drop_zero(s);
        lemma_value_bound(s.drop_last());
    }
}

/// One borrow-propagation step of a subtraction.
pub proof fn lemma_borrow_step(v: int, pb: int, pa: int, br: int, w: int, d: int, a: int, b: int, br2: int)
    by (nonlinear_arith)
    requires
        v + pb == pa + br * w,
        d + b + br == a + br2 * base(),
    ensures
        (v + d * w) + (pb + b * w) == (pa + a * w) + br2 * (base() * w),
{
}

/// One step of a multiply-accumulate row: adding `a * b` plus the carry into
/// limb `k` (weight `w = bi * bj`) extends the partial product by `a * b * w`.
pub proof fn lemma_mul_acc_step(
    vo: int,
    vo2: int,
    ok: int,
    nw: int,
    c: int,
    c2: int,
    w: int,
    v: int,
    a: int,
    b: int,
    x: int,
    vbj: int,
    bi: int,
    bj: int,
)
    requires
        vo2 + ok * w == vo + nw * w,
        v == ok + a * b + c,
        v == nw + base() * c2,
        vo + c * w == x + a * vbj * bi,
        w == bi * bj,
    ensures
        vo2 + c2 * (base() * w) == x + a * (vbj + b * bj) * bi,
{
    let bb = base() as int;
    assert(c2 * (bb * w) == (bb * c2) * w) by (nonlinear_arith);
    assert((nw + bb * c2) * w == nw * w + (bb * c2) * w) by (nonlinear_arith);
    assert((ok + a * b + c) * w == ok * w + (a * b) * w + c * w) by (nonlinear_arith);
    assert((a * b) * w == a * (b * bj) * bi) by (nonlinear_arith)
        requires
            w == bi * bj,
    ;
    assert(a * vbj * bi + a * (b * bj) * bi == a * (vbj + b * bj) * bi) by (nonlinear_arith);
    assert(v * w == (nw + bb * c2) * w);
    assert(v * w == (ok + a * b + c) * w);
}

/// Zero-filled limb vector.
pub fn zeros(n: usize) -> (v: Vec<u64>)
    ensures
        v@.len() == n,
        forall|i: int| 0 <= i < n ==> v@[i] == 0,
        limbs_value(v@) == 0,
{
    let mut v: Vec<u64> = Vec::new();
    let mut i: usize = 0;
    while i < n
        invariant
            i <= n,
            v@.len() == i,
            forall|j: int| 0 <= j < i ==> v@[j] == 0,
        decreases n - i,
    {
        v.push(0);
        i += 1;
    }
    proof {
        lemma_value_zero(v@);
    }
    v
}

/// Adding a multiple of the divisor adds to the quotient.
pub proof fn lemma_div_add_multiple(x: int, d: int, m: int)
    requires
        0 <= x,
        0 < d,
    ensures
        (x + d * m) / d == x / d + m,
        (x + d * m) % d == x % d,
{
    lemma_fundamental_div_mod(x, d);
    lemma_mod_bound(x, d);
    assert(x + d * m == d * (x / d + m) + x % d) by {
        lemma_mul_is_distributive_add(d, x / d, m);
    }
    lemma_div_multiples_vanish_fancy(x / d + m, x % d, d);
    lemma_fundamental_div_mod_converse(x + d * m, d, x / d + m, x % d);
}

/// `base()` splits into the powers of two on either side of a bit position.
pub proof fn lemma_base_split(k: nat)
    requires
        k <= 64,
    ensures
        pow2(k) * pow2((64 - k) as nat) == base(),
{
    lemma_pow2_adds(k, (64 - k) as nat);
    lemma2_to64_rest();
}

/// One limb of a right shift by `k` bits, `0 < k < 64`: the quotient of
/// `tj + base * v` by `2^k` keeps the high bits of `tj`, the low bits of the
/// next limb `tn`, and the quotient of `v` one limb higher.
pub proof fn lemma_shr_limb(tj: nat, tn: nat, v: nat, k: nat)
    requires
        0 < k < 64,
        v % pow2(k) == tn % pow2(k),
    ensures
        (tj + base() * v) / pow2(k) == tj / pow2(k) + (tn % pow2(k)) * pow2((64 - k) as nat)
            + base() * (v / pow2(k)),
{
    let p = pow2(k) as int;
    let c = pow2((64 - k) as nat) as int;
    lemma_pow2_pos(k);
    lemma_base_split(k);
    lemma_fundamental_div_mod(v as int, p);
    let q = (v / pow2(k)) as int;
    let r = (v % pow2(k)) as int;
    // base * v == p * (c * r + base * q)
    assert(base() * v == p * (c * r + base() * q)) by {
        assert(v == p * q + r);
        lemma_mul_is_distributive_add(base() as int, p * q, r);
        lemma_mul_is_associative(p, c, r);
        lemma_mul_is_commutative(base() as int, p * q);
        lemma_mul_is_associative(p, q, base() as int);
        lemma_mul_is_commutative(q, base() as int);
        lemma_mul_is_distributive_add(p, c * r, base() * q);
    }
    lemma_div_add_multiple(tj as int, p, c * r + base() * q);
    lemma_mul_is_commutative(r, c);
}

/// The remainder modulo `2^k`, `k <= 64`, sees only the lowest limb.
pub proof fn lemma_mod_pow2_low_limb(s: Seq<u64>, k: nat)
    requires
        k <= 64,
    ensures
        limbs_value(s) % pow2(k) == digit(s, 0) % pow2(k),
{
    lemma_pow2_pos(k);
    if s.len() > 0 {
        lemma_base_split(k);
        let rest = limbs_value(s.skip(1));
        assert(base() * rest == pow2(k) * (pow2((64 - k) as nat) * rest)) by {
            lemma_mul_is_associative(pow2(k) as int, pow2((64 - k) as nat) as int, rest as int);
        }
        lemma_div_add_multiple(s[0] as int, pow2(k) as int, (pow2((64 - k) as nat) * rest) as int);
    } else {
        assert(limbs_value(s) == 0);
    }
}

/// Two equal-length sequences that agree above position `i` and differ at
/// `i` are ordered by their limbs at `i`.
pub proof fn lemma_value_lt_at(s: Seq<u64>, r: Seq<u64>, i: int)
    requires
        s.len() == r.len(),
        0 <= i < s.len(),
        s[i] < r[i],
        s.skip(i + 1) == r.skip(i + 1),
    ensures
        limbs_value(s) < limbs_value(r),
{
    lemma_value_split(s, i);
    lemma_value_split(r, i);
    lemma_value_skip_step(s, i);
    lemma_value_skip_step(r, i);
    lemma_value_bound(s.take(i));
    let c = limbs_value(s.skip(i + 1));
    let w = bpow(i as nat) as int;
    assert(w * (s[i] + base() * c) + w <= w * (r[i] + base() * c)) by (nonlinear_arith)
        requires
            s[i] < r[i],
            w > 0,
    {
        assert(s[i] + base() * c + 1 <= r[i] + base() * c);
    }
    lemma_bpow_pos(i as nat);
}

/// Products of bounded values are bounded by the product weight.
pub proof fn lemma_mul_bound(x: nat, y: nat, a: nat, b: nat)
    requires
        x < bpow(a),
        y < bpow(b),
    ensures
        x * y < bpow(a + b),
{
    lemma_bpow_add(a, b);
    lemma_bpow_pos(b);
    if y == 0 {
        lemma_mul_by_zero_is_zero(x as int);
        lemma_bpow_pos(a + b);
    } else {
        lemma_mul_strict_inequality(x as int, bpow(a) as int, y as int);
        lemma_mul_inequality(y as int, bpow(b) as int, bpow(a) as int);
        lemma_mul_is_commutative(y as int, bpow(a) as int);
        lemma_mul_is_commutative(bpow(b) as int, bpow(a) as int);
    }
}

/// The number of limbs of `v` without most-significant zero limbs.
pub open spec fn limb_len(v: nat) -> nat
    decreases v,
{
    if v == 0 {
        0
    } else {
        1 + limb_len(v / base())
    }
}

/// A top limb is zero exactly when the value is below the weight of that limb.
pub proof fn lemma_top_zero_iff(s: Seq<u64>)
    requires
        s.len() > 0,
    ensures
        s.last() == 0 <==> limbs_value(s) < bpow((s.len() - 1) as nat),
{
    if s.last() == 0 {
        lemma_value_drop_zero(s);
        lemma_value_bound(s.drop_last());
    } else {
        lemma_value_lower(s);
    }
}

/// `limb_len(v)` is the least `k` with `v < bpow(k)`.
pub proof fn lemma_limb_len(v: nat)
    ensures
        v < bpow(limb_len(v)),
        v > 0 ==> bpow((limb_len(v) - 1) as nat) <= v,
    decreases v,
{
    if v > 0 {
        lemma_limb_len(v / base());
        lemma_fundamental_div_mod(v as int, base() as int);
        lemma_mod_bound(v as int, base() as int);
        let q = v / base();
        let k = limb_len(q);
        assert(bpow(k + 1) == base() * bpow(k));
        assert(v < bpow(k + 1)) by (nonlinear_arith)
            requires
                v == base() * q + v % base(),
                v % base() < base(),
                q < bpow(k),
                bpow(k + 1) == base() * bpow(k),
        ;
        if q > 0 {
            assert(bpow(k) == base() * bpow((k - 1) as nat));
            assert(bpow(k) <= v) by (nonlinear_arith)
                requires
                    v == base() * q + v % base(),
                    v % base() >= 0,
                    bpow((k - 1) as nat) <= q,
                    bpow(k) == base() * bpow((k - 1) as nat),
            ;
        } else {
            assert(k == 0);
            assert(bpow(0) == 1);
        }
    }
}

/// The bracket `bpow(k - 1) <= v < bpow(k)` determines `limb_len(v) == k`.
pub proof fn lemma_limb_len_unique(v: nat, k: nat)
    requires
        v < bpow(k),
        k > 0 ==> bpow((k - 1) as nat) <= v,
    ensures
        limb_len(v) == k,
{
    lemma_limb_len(v);
    if limb_len(v) < k {
        lemma_bpow_mono(limb_len(v), (k - 1) as nat);
    } else if limb_len(v) > k {
        lemma_bpow_mono(k, (limb_len(v) - 1) as nat);
    }
}

/// A normalized sequence has exactly `limb_len` of its value limbs.
pub proof fn lemma_normalized_len(s: Seq<u64>)
    requires
        is_normalized(s),
    ensures
        s.len() == limb_len(limbs_value(s)),
{
    lemma_value_bound(s);
    if s.len() > 0 {
        lemma_value_lower(s);
    }
    lemma_limb_len_unique(limbs_value(s), s.len());
}

/// Limb-wise complements sum to one less than the weight of the length.
pub proof fn lemma_complement_value(s: Seq<u64>, t: Seq<u64>)
    requires
        s.len() == t.len(),
        forall|i: int| 0 <= i < s.len() ==> t[i] == 0xffff_ffff_ffff_ffff - s[i],
    ensures
        limbs_value(s) + limbs_value(t) + 1 == bpow(s.len()),
    decreases s.len(),
{
    if s.len() > 0 {
        assert forall|i: int| 0 <= i < s.skip(1).len() implies t.skip(1)[i] == 0xffff_ffff_ffff_ffff
            - s.skip(1)[i] by {
            assert(s.skip(1)[i] == s[i + 1]);
            assert(t.skip(1)[i] == t[i + 1]);
        }
        lemma_complement_value(s.skip(1), t.skip(1));
        let a = limbs_value(s.skip(1));
        let b = limbs_value(t.skip(1));
        assert(bpow(s.len()) == base() * bpow((s.len() - 1) as nat));
        lemma_mul_is_distributive_add(base() as int, a as int, b as int);
    } else {
        assert(bpow(0) == 1);
    }
}

/// Overwriting position `i` of a sequence whose suffix from `i` is still that
/// of `o` extends the rewritten prefix by one limb.
pub proof fn lemma_set_step(before: Seq<u64>, after: Seq<u64>, o: Seq<u64>, i: int, x: u64)
    requires
        0 <= i < before.len(),
        before.len() == o.len(),
        after == before.update(i, x),
        before.skip(i) == o.skip(i),
    ensures
        before[i] == o[i],
        after.skip(i + 1) == o.skip(i + 1),
        after.len() == before.len(),
        limbs_value(after.take(i + 1)) == limbs_value(before.take(i)) + x * bpow(i as nat),
{
    assert(before[i] == before.skip(i)[0]);
    assert(o[i] == o.skip(i)[0]);
    assert(after.take(i + 1) =~= before.take(i).push(x));
    assert forall|k: int| 0 <= k < after.skip(i + 1).len() implies #[trigger] after.skip(i + 1)[k]
        == o.skip(i + 1)[k] by {
        assert(before.skip(i)[k + 1] == o.skip(i)[k + 1]);
    }
    assert(after.skip(i + 1) =~= o.skip(i + 1));
    lemma_value_push(before.take(i), x);
}

} // verus!
