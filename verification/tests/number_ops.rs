use lib::number::integer::Integer;
use lib::number::reals::Real;

fn limbs_of(limbs: Vec<u64>) -> Integer {
    Integer { limbs }
}

/// The two-limb start of the reciprocal of `a`: `2^128` over its two leading
/// limbs, in floating point.
fn float_seed(a: &Integer) -> Integer {
    let base = 18446744073709551616.0f64;
    let n = a.limbs.len();
    let h = a.limbs[n - 1] as f64 * base + a.limbs[n - 2] as f64;
    let x = base * base / h;
    let x0 = x as u64;
    let x1 = ((x - x0 as f64) * base) as u64;
    Integer { limbs: vec![x1, x0] }
}

#[test]
fn integer_text() {
    assert_eq!(limbs_of(vec![1, 2]).to_display_string(), "20000000000000000001");
    assert_eq!(limbs_of(vec![u64::MAX, 1]).to_display_string(), "118446744073709551615");
    assert_eq!(limbs_of(vec![]).to_display_string(), "0");
    assert_eq!(limbs_of(vec![42]).to_display_string(), "42");
    assert_eq!(limbs_of(vec![0xAB, 1]).to_upper_hex_string(), "100000000000000AB");
    assert_eq!(limbs_of(vec![0xABC]).to_upper_hex_string(), "ABC");
}

#[test]
fn integer_from_u64() {
    let x = Integer::from(7);
    assert_eq!(x.limbs, vec![7]);
    assert_eq!(Integer::from(0).limbs, vec![0]);
    assert_eq!(x.len(), 1);
}

#[test]
fn leading_limbs() {
    let x = limbs_of(vec![1, 2, 3]);
    assert_eq!(x.get_leading(2).limbs, vec![2, 3]);
    assert_eq!(x.get_leading(5).limbs, vec![1, 2, 3]);
    assert_eq!(x.get_leading(0).limbs, Vec::<u64>::new());
}

#[test]
fn limb_shifts_round_trip() {
    let mut x = limbs_of(vec![7]);
    x.shift_up_limbs(2);
    assert_eq!(x.limbs, vec![0, 0, 7]);
    x.shift_down_limbs(2);
    assert_eq!(x.limbs, vec![7]);
    x.shift_down_limbs(3);
    assert!(x.limbs.is_empty());
}

#[test]
fn addition_and_subtraction() {
    let mut x = limbs_of(vec![u64::MAX]);
    x.add_assign(&limbs_of(vec![1]));
    assert_eq!(x.limbs, vec![0, 1]);
    x.sub_assign(&limbs_of(vec![1]));
    assert_eq!(x.limbs, vec![u64::MAX]);
    let mut w = limbs_of(vec![1, 0]);
    w.sub_assign(&limbs_of(vec![2]));
    assert_eq!(w.limbs, vec![u64::MAX, u64::MAX]);
    let mut y = limbs_of(vec![5, 0]);
    y.add_assign(&limbs_of(vec![1, 2, 3]));
    assert_eq!(y.limbs, vec![6, 2, 3]);
}

#[test]
fn negation_is_twos_complement() {
    let mut x = limbs_of(vec![1]);
    x.negate();
    assert_eq!(x.limbs, vec![u64::MAX]);
    let mut z = limbs_of(vec![0, 0]);
    z.negate();
    assert!(z.limbs.is_empty());
    let mut w = limbs_of(vec![0, 1]);
    w.negate();
    assert_eq!(w.limbs, vec![0, u64::MAX]);
}

#[test]
fn shifts_and_products() {
    let mut x = limbs_of(vec![0x10, 1]);
    x.shr_assign(4);
    assert_eq!(x.limbs, vec![(1u64 << 60) + 1, 0]);
    let mut y = limbs_of(vec![u64::MAX]);
    y.mul_assign_u64(2);
    assert_eq!(y.limbs, vec![u64::MAX - 1, 1]);
    let mut z = limbs_of(vec![u64::MAX]);
    z.mul_assign(&limbs_of(vec![u64::MAX]));
    assert_eq!(z.limbs, vec![1, u64::MAX - 1]);
    assert_eq!(limbs_of(vec![u64::MAX]).square().limbs, vec![1, u64::MAX - 1]);
    assert_eq!(limbs_of(vec![3]).square().limbs, vec![9]);
}

#[test]
fn real_text() {
    let r = Real { mantissa: limbs_of(vec![7, 5, 3]), point: 1 };
    assert_eq!(r.to_display_string(), "30000000000000000005.0000000000000000007");
    let s = Real { mantissa: limbs_of(vec![1, 2, 3]), point: 5 };
    let z = "0".repeat(19);
    let expected = format!(
        "0.{}{}000000000000000000300000000000000000020000000000000000001",
        z, z
    );
    assert_eq!(s.to_display_string(), expected);
    let h = Real { mantissa: limbs_of(vec![0xA, 0xB, 0xC]), point: 1 };
    assert_eq!(h.to_upper_hex_string(), "C000000000000000B.000000000000000A");
    let one = Real { mantissa: limbs_of(vec![0xA, 0xB, 1]), point: 2 };
    assert_eq!(one.to_upper_hex_string(), "1.000000000000000B000000000000000A");
    let whole = Real { mantissa: limbs_of(vec![42]), point: 0 };
    assert_eq!(whole.to_display_string(), "42.");
    let empty = Real { mantissa: limbs_of(vec![]), point: 1 };
    assert_eq!(empty.to_upper_hex_string(), "0.0000000000000000");
}

#[test]
fn real_from_and_scaling() {
    let mut r = Real::from(limbs_of(vec![u64::MAX]));
    assert_eq!(r.point, 0);
    r.mul_assign_u64(2);
    assert_eq!(r.mantissa.limbs, vec![u64::MAX - 1, 1]);
    assert_eq!(r.point, 0);
}

#[test]
fn reciprocal_of_a_power_of_the_base() {
    // 1 / 2^128 with point 3 + 2 - 1: just below 2^(64 * 4) / 2^128
    let a = limbs_of(vec![0, 0, 1]);
    let mut r = Real::from(a.clone());
    let seed = float_seed(&a);
    assert_eq!(seed.limbs, vec![0, u64::MAX]);
    r.invert(2, seed);
    assert_eq!(r.point, 4);
    assert_eq!(r.mantissa.limbs, vec![u64::MAX, u64::MAX]);
}

#[test]
fn reciprocal_of_three_limbs_up() {
    let a = limbs_of(vec![0, 3]);
    let mut r = Real::from(a.clone());
    let seed = float_seed(&a);
    assert_eq!(seed.limbs, vec![0, 0x5555555555555400]);
    r.invert(2, seed);
    assert_eq!(r.point, 3);
    assert_eq!(r.mantissa.limbs, vec![0x5555555555500000, 0x5555555555555555]);
}

#[test]
fn square_root_of_a_small_number_is_zero() {
    let r = Real::inverse_square_root(2, 4);
    assert_eq!(r.mantissa.limbs, vec![0]);
    assert_eq!(r.point, 0);
    let s = Real::square_root(10005, 4);
    assert_eq!(s.mantissa.limbs, vec![0]);
    assert_eq!(s.point, 0);
}

#[test]
fn shift_by_zero_and_round_trips() {
    let mut x = limbs_of(vec![0, 1]);
    x.shr_assign(0);
    assert_eq!(x.limbs, vec![0, 1]);
    x.shr_assign(1);
    assert_eq!(x.limbs, vec![1 << 63, 0]);
    let mut e = limbs_of(vec![]);
    e.shift_up_limbs(3);
    e.shift_down_limbs(3);
    assert!(e.limbs.is_empty());
    let mut y = limbs_of(vec![4, 5]);
    y.shift_up_limbs(0);
    y.shift_down_limbs(0);
    assert_eq!(y.limbs, vec![4, 5]);
    let s = limbs_of(vec![0, 1]).square();
    assert_eq!(s.limbs, vec![0, 0, 1]);
    let mut p = limbs_of(vec![0, 1]);
    p.mul_assign(&limbs_of(vec![0, 1]));
    assert_eq!(p.limbs, s.limbs);
}

#[test]
fn try_invert_reports_a_step_that_cannot_be_taken() {
    // one limb asked for, a two-limb seed: the step would shift x down by a
    // negative count
    let a = limbs_of(vec![0, 3]);
    let mut r = Real::from(a.clone());
    assert!(!r.try_invert(1, float_seed(&a)));
    assert_eq!(r.mantissa.limbs, vec![0, 3]);
    assert_eq!(r.point, 0);
    let mut s = Real::from(a.clone());
    assert!(s.try_invert(2, float_seed(&a)));
    assert_eq!(s.point, 3);
    assert_eq!(s.mantissa.limbs, vec![0x5555555555500000, 0x5555555555555555]);
}
