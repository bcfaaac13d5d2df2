//! Positional rendering of numbers as text: plain and zero-padded digit
//! strings in radix 10 and 16.
use vstd::prelude::*;
use vstd::arithmetic::div_mod::*;
use vstd::arithmetic::mul::*;
use vstd::arithmetic::power::*;
use vstd::string::StringExecFns;

verus! {

/// The character of digit `d` (`0`-`9`, then `A`-`F`).
pub open spec fn digit_char(d: nat) -> char {
    if d < 10 {
        (48 + d) as char
    } else {
        (55 + d) as char
    }
}

/// The digits of `v` in radix `r`, most significant first, without leading
/// zeros; zero is the single digit `0`.
pub open spec fn digits(v: nat, r: nat) -> Seq<char>
    decreases v,
{
    if r < 2 || v < r {
        seq![digit_char(v)]
    } else {
        proof {
            lemma_div_decreases(v as int, r as int);
        }
        digits(v / r, r).push(digit_char(v % r))
    }
}

/// The lowest `w` digits of `v` in radix `r`, zero-padded on the left.
pub open spec fn padded(v: nat, r: nat, w: nat) -> Seq<char>
    decreases w,
{
    if w == 0 || r < 2 {
        Seq::empty()
    } else {
        padded(v / r, r, (w - 1) as nat).push(digit_char(v % r))
    }
}

/// Digits of a number split at a digit boundary: the high part unpadded,
/// the low part padded to its width.
pub proof fn lemma_digits_split(a: nat, b: nat, r: nat, w: nat)
    requires
        a > 0,
        r >= 2,
        b < pow(r as int, w),
    ensures
        digits(a * (pow(r as int, w) as nat) + b, r) == digits(a, r) + padded(b, r, w),
    decreases w,
{
    reveal(pow);
    let v = a * (pow(r as int, w) as nat) + b;
    if w == 0 {
        assert(padded(b, r, 0) =~= Seq::<char>::empty());
        assert(digits(a, r) + padded(b, r, w) =~= digits(a, r));
        assert(pow(r as int, w) == 1);
        assert((pow(r as int, w) as nat) == 1);
        let x = pow(r as int, w) as nat;
        assert(a * x == a) by (nonlinear_arith)
            requires
                x == 1,
        ;
        assert(b == 0);
        assert(v == a);
    } else {
        let pw1 = pow(r as int, (w - 1) as nat);
        lemma_pow_positive(r as int, (w - 1) as nat);
        assert(pow(r as int, w) == r * pw1);
        // v == r * (a * pw1 + b / r) + b % r
        lemma_fundamental_div_mod(b as int, r as int);
        lemma_mod_bound(b as int, r as int);
        let q = (b / r) as int;
        let m = (b % r) as int;
        assert(v == a * (r * pw1) + b);
        assert(b == r * q + m);
        assert(v == r * (a * pw1 + q) + m) by (nonlinear_arith)
            requires
                v == a * (r * pw1) + b,
                b == r * q + m,
        ;
        lemma_div_multiples_vanish_fancy(a * pw1 + b / r, (b % r) as int, r as int);
        lemma_fundamental_div_mod_converse(v as int, r as int, a * pw1 + b / r, (b % r) as int);
        // b / r < r^(w - 1)
        lemma_multiply_divide_lt(b as int, r as int, pw1);
        lemma_div_pos_is_pos(b as int, r as int);
        lemma_digits_split(a, (b / r) as nat, r, (w - 1) as nat);
        assert(a * pw1 >= 1) by (nonlinear_arith)
            requires
                a >= 1,
                pw1 >= 1,
        ;
        assert(v >= r) by (nonlinear_arith)
            requires
                v == r * (a * pw1 + b / r) + b % r,
                a * pw1 >= 1,
                b / r >= 0,
                b % r >= 0,
                r >= 2,
        ;
        assert(digits(a, r) + padded(b, r, w) =~= (digits(a, r) + padded((b / r) as nat, r, (w - 1) as nat)).push(
            digit_char(b % r),
        ));
    }
}

/// The string of one digit.
pub fn digit_str(d: u64) -> (s: &'static str)
    requires
        d < 16,
    ensures
        s@ == seq![digit_char(d as nat)],
{
    proof {
        reveal_strlit("0");
        reveal_strlit("1");
        reveal_strlit("2");
        reveal_strlit("3");
        reveal_strlit("4");
        reveal_strlit("5");
        reveal_strlit("6");
        reveal_strlit("7");
        reveal_strlit("8");
        reveal_strlit("9");
        reveal_strlit("A");
        reveal_strlit("B");
        reveal_strlit("C");
        reveal_strlit("D");
        reveal_strlit("E");
        reveal_strlit("F");
    }
    match d {
        0 => "0",
        1 => "1",
        2 => "2",
        3 => "3",
        4 => "4",
        5 => "5",
        6 => "6",
        7 => "7",
        8 => "8",
        9 => "9",
        10 => "A",
        11 => "B",
        12 => "C",
        13 => "D",
        14 => "E",
        _ => "F",
    }
}

/// Appends the digits of `v` in radix `r`.
pub fn append_digits(s: &mut String, v: u64, r: u64)
    requires
        2 <= r <= 16,
    ensures
        final(s)@ == old(s)@ + digits(v as nat, r as nat),
    decreases v,
{
    if v >= r {
        proof {
            lemma_div_decreases(v as int, r as int);
        }
        append_digits(s, v / r, r);
    }
    proof {
        lemma_mod_bound(v as int, r as int);
        if v < r {
            lemma_small_mod(v as nat, r as nat);
        }
    }
    let d = digit_str(v % r);
    s.append(d);
    proof {
        if v < r {
            assert(digits(v as nat, r as nat) =~= seq![digit_char((v % r) as nat)]);
        }
    }
}

/// Appends the lowest `w` digits of `v` in radix `r`, zero-padded.
pub fn append_padded(s: &mut String, v: u64, r: u64, w: usize)
    requires
        2 <= r <= 16,
    ensures
        final(s)@ == old(s)@ + padded(v as nat, r as nat, w as nat),
    decreases w,
{
    if w == 0 {
        assert(old(s)@ + padded(v as nat, r as nat, 0) =~= old(s)@);
        return;
    }
    append_padded(s, v / r, r, w - 1);
    proof {
        lemma_mod_bound(v as int, r as int);
    }
    let d = digit_str(v % r);
    s.append(d);
}

/// `n` zero digits.
pub open spec fn zero_chars(n: nat) -> Seq<char> {
    Seq::new(n, |i: int| '0')
}

/// Padding a number that fits in `w` digits prefixes its digits with zeros.
pub proof fn lemma_padded_digits(v: nat, r: nat, w: nat)
    requires
        r >= 2,
        w >= 1,
        v < pow(r as int, w),
    ensures
        digits(v, r).len() <= w,
        padded(v, r, w) == zero_chars((w - digits(v, r).len()) as nat) + digits(v, r),
    decreases w,
{
    reveal(pow);
    let pw1 = pow(r as int, (w - 1) as nat);
    lemma_pow_positive(r as int, (w - 1) as nat);
    assert(pow(r as int, w) == r * pw1);
    assert(digit_char(0) == '0');
    if v < r {
        lemma_basic_div(v as int, r as int);
        lemma_small_mod(v, r);
        assert(padded(v, r, w) == padded(0, r, (w - 1) as nat).push(digit_char(v)));
        assert(digits(v, r) =~= seq![digit_char(v)]);
        lemma_padded_zero(r, (w - 1) as nat);
        assert(padded(v, r, w) =~= zero_chars((w - 1) as nat) + digits(v, r));
    } else {
        lemma_multiply_divide_lt(v as int, r as int, pw1);
        lemma_div_pos_is_pos(v as int, r as int);
        if w == 1 {
            assert(pw1 == 1);
            assert(false);
        }
        lemma_padded_digits(v / r, r, (w - 1) as nat);
        assert(padded(v, r, w) =~= zero_chars((w - digits(v, r).len()) as nat) + digits(v, r));
    }
}

/// Padding zero gives zeros.
pub proof fn lemma_padded_zero(r: nat, w: nat)
    requires
        r >= 2,
    ensures
        padded(0, r, w) == zero_chars(w),
    decreases w,
{
    if w > 0 {
        lemma_basic_div(0, r as int);
        lemma_small_mod(0, r);
        lemma_padded_zero(r, (w - 1) as nat);
        assert(digit_char(0) == '0');
        assert(padded(0, r, w) =~= zero_chars(w));
    } else {
        assert(padded(0, r, w) =~= zero_chars(w));
    }
}


/// The digits of `v` in radix `r`, zero-padded on the left to at least `w`
/// characters; longer numbers keep all their digits.
pub open spec fn at_least(v: nat, r: nat, w: nat) -> Seq<char> {
    let d = digits(v, r);
    if d.len() >= w {
        d
    } else {
        zero_chars((w - d.len()) as nat) + d
    }
}

/// The limbs of `s` as text, most significant first, each as `at_least(.., r, w)`.
pub open spec fn limbs_text(s: Seq<u64>, r: nat, w: nat) -> Seq<char>
    decreases s.len(),
{
    if s.len() == 0 {
        Seq::empty()
    } else {
        limbs_text(s.skip(1), r, w) + at_least(s[0] as nat, r, w)
    }
}

/// The number of digits of `v` in radix `r`.
pub fn digit_count(v: u64, r: u64) -> (c: usize)
    requires
        2 <= r <= 16,
    ensures
        c == digits(v as nat, r as nat).len(),
        c <= 64,
    decreases v,
{
    if v < r {
        1
    } else {
        proof {
            lemma_div_decreases(v as int, r as int);
            lemma_div_is_ordered_by_denominator(v as int, 2, r as int);
            lemma_div_pos_is_pos(v as int, r as int);
        }
        let c = digit_count(v / r, r);
        proof {
            lemma_digit_count_bound(v as nat, r as nat);
        }
        c + 1
    }
}

/// A number below `2^64` has at most 64 digits.
proof fn lemma_digit_count_bound(v: nat, r: nat)
    requires
        2 <= r,
        v < 0x1_0000_0000_0000_0000,
    ensures
        digits(v, r).len() <= 64,
{
    vstd::arithmetic::power2::lemma2_to64();
    lemma_digits_len_log(v, r, 64);
}

/// Below `2^k` a number has at most `max(k, 1)` digits in a radix of at least two.
proof fn lemma_digits_len_log(v: nat, r: nat, k: nat)
    requires
        2 <= r,
        v < vstd::arithmetic::power2::pow2(k),
    ensures
        digits(v, r).len() <= if k == 0 { 1 } else { k },
    decreases k,
{
    vstd::arithmetic::power2::lemma_pow2_pos(k);
    if v >= r {
        lemma_div_decreases(v as int, r as int);
        assert(k >= 1) by {
            if k == 0 {
                vstd::arithmetic::power2::lemma2_to64();
            }
        }
        vstd::arithmetic::power2::lemma_pow2_adds((k - 1) as nat, 1);
        vstd::arithmetic::power2::lemma2_to64();
        lemma_div_is_ordered_by_denominator(v as int, 2, r as int);
        assert(v / 2 < vstd::arithmetic::power2::pow2((k - 1) as nat)) by {
            lemma_div_by_multiple_is_strongly_ordered(v as int, vstd::arithmetic::power2::pow2(k) as int, vstd::arithmetic::power2::pow2((k - 1) as nat) as int, 2);
        }
        lemma_digits_len_log(v / r, r, (k - 1) as nat);
    }
}

/// Appends `n` zero digits.
pub fn append_zeros(s: &mut String, n: usize)
    ensures
        final(s)@ == old(s)@ + zero_chars(n as nat),
{
    let mut i: usize = 0;
    proof {
        reveal_strlit("0");
        assert(old(s)@ + zero_chars(0) =~= old(s)@);
    }
    while i < n
        invariant
            i <= n,
            s@ == old(s)@ + zero_chars(i as nat),
        decreases n - i,
    {
        s.append("0");
        proof {
            reveal_strlit("0");
            assert(old(s)@ + zero_chars((i + 1) as nat) =~= old(s)@ + zero_chars(i as nat) + "0"@);
        }
        i += 1;
    }
}

/// Appends the digits of `v` in radix `r`, zero-padded to at least `w`.
pub fn append_at_least(s: &mut String, v: u64, r: u64, w: usize)
    requires
        2 <= r <= 16,
    ensures
        final(s)@ == old(s)@ + at_least(v as nat, r as nat, w as nat),
{
    let c = digit_count(v, r);
    if c < w {
        append_zeros(s, w - c);
    } else {
        proof {
            assert(old(s)@ + zero_chars(0) =~= old(s)@);
        }
    }
    let ghost mid = s@;
    append_digits(s, v, r);
    proof {
        if c < w {
            assert(old(s)@ + at_least(v as nat, r as nat, w as nat) =~= mid + digits(v as nat, r as nat));
        } else {
            assert(old(s)@ + at_least(v as nat, r as nat, w as nat) =~= old(s)@ + digits(v as nat, r as nat));
        }
    }
}

/// Appends `limbs_text` of the first `end` limbs of `limbs`.
pub fn append_limbs_text(s: &mut String, limbs: &Vec<u64>, end: usize, r: u64, w: usize)
    requires
        2 <= r <= 16,
        end <= limbs@.len(),
    ensures
        final(s)@ == old(s)@ + limbs_text(limbs@.take(end as int), r as nat, w as nat),
{
    let mut i = end;
    proof {
        assert(limbs@.subrange(end as int, end as int).len() == 0);
        assert(old(s)@ + limbs_text(limbs@.subrange(end as int, end as int), r as nat, w as nat) =~= old(s)@);
    }
    while i > 0
        invariant
            i <= end <= limbs@.len(),
            2 <= r <= 16,
            s@ == old(s)@ + limbs_text(limbs@.subrange(i as int, end as int), r as nat, w as nat),
        decreases i,
    {
        let ghost before = s@;
        append_at_least(s, limbs[i - 1], r, w);
        proof {
            let sub = limbs@.subrange(i - 1, end as int);
            assert(sub.skip(1) =~= limbs@.subrange(i as int, end as int));
            assert(sub[0] == limbs@[i - 1]);
            assert(s@ =~= old(s)@ + limbs_text(sub, r as nat, w as nat));
        }
        i -= 1;
    }
    proof {
        assert(limbs@.subrange(0, end as int) =~= limbs@.take(end as int));
    }
}
} // verus!
