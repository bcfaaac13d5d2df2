use lib::binary_fixed::{newton_iterations, pow10, reciprocal_seed, Fixed};
use lib::bigint::Integer;
use lib::drm::{split, DrmFormula};
use lib::formula::{bits_for_decimal_digits, can_compute, compute_pi, Chudnovsky, Formula, SquareRootFormula};
use lib::isqrt::isqrt_u128;

#[test]
fn first_terms_of_the_series() {
    let f = Chudnovsky;
    let t0 = split(&f, 0, 1);
    assert_eq!(t0.p.to_decimal_string(), "1");
    assert_eq!(t0.q.to_decimal_string(), "1");
    assert_eq!(t0.t_positive.to_decimal_string(), "13591409");
    assert!(t0.t_negative.is_zero());
    let t1 = f.term(1);
    assert_eq!(t1.p.to_decimal_string(), "5");
    assert_eq!(t1.q.to_decimal_string(), "10939058860032000");
    assert_eq!(t1.t_negative.to_decimal_string(), "2793657715");
    assert!(t1.t_positive.is_zero());
}

#[test]
fn binary_splitting_combines_ranges() {
    let s = split(&Chudnovsky, 0, 2);
    assert_eq!(s.p.to_decimal_string(), "5");
    assert_eq!(s.q.to_decimal_string(), "10939058860032000");
    assert_eq!(s.t_positive.to_decimal_string(), "148677223041768665088000");
    assert_eq!(s.t_negative.to_decimal_string(), "2793657715");
    assert_eq!(s.t_magnitude_when_positive().to_decimal_string(), "148677223041765871430285");
}

#[test]
fn numerator_and_denominator_of_two_terms() {
    let (num, den) = Chudnovsky.run(2);
    assert_eq!(num.to_decimal_string(), "46720002788935453900800000");
    assert_eq!(den.to_decimal_string(), "148677223041765871430285");
}

#[test]
fn term_count_and_precision() {
    assert_eq!(Chudnovsky.terms_for_digits(100), 9);
    assert_eq!(Chudnovsky.terms_for_digits(0), 1);
    assert_eq!(Chudnovsky.inv_sqrt_u64(), 10005);
    assert_eq!(bits_for_decimal_digits(100), 333);
    assert_eq!(bits_for_decimal_digits(1), 4);
    assert_eq!(bits_for_decimal_digits(0), 0);
}

#[test]
fn short_expansions_of_pi() {
    assert_eq!(compute_pi(10), "3.1415926535");
    assert_eq!(compute_pi(0), "3");
    assert_eq!(compute_pi(1), "3.1");
    let value = Chudnovsky.compute(20);
    assert_eq!(value.to_decimal(20), "3.14159265358979323846");
}

#[test]
fn fixed_point_arithmetic() {
    let three = Fixed::from_u64(3, 8);
    assert_eq!(three.to_decimal(2), "3.00");
    assert_eq!(three.to_decimal(0), "3");
    assert_eq!(three.shr1().to_decimal(1), "1.5");
    assert_eq!(three.mul_u64(7).to_decimal(1), "21.0");
    assert_eq!(three.mul(&three).to_decimal(1), "9.0");
    assert_eq!(three.sub(&Fixed::from_u64(1, 8)).to_decimal(1), "2.0");
    let q = Fixed::divide(Integer::from(22), Integer::from(7), 64);
    assert_eq!(q.to_decimal(5), "3.14285");
    let small = Fixed::divide(Integer::one(), Integer::from(1000), 64);
    assert_eq!(small.to_decimal(4), "0.0009");
}

#[test]
fn helpers() {
    assert_eq!(pow10(3).to_decimal_string(), "1000");
    assert_eq!(pow10(0).to_decimal_string(), "1");
    assert_eq!(newton_iterations(100), 4);
    assert_eq!(newton_iterations(0), 2);
    assert_eq!(isqrt_u128(100_000_000_000_000_000_000), 10_000_000_000);
    assert_eq!(isqrt_u128(u128::MAX), u64::MAX);
    assert_eq!(isqrt_u128(15), 3);
}

#[test]
fn divide_is_within_one_unit() {
    // 2^64 / 3 = 6148914691236517205.33..: the quotient is that or one less
    let q = Fixed::divide(Integer::one(), Integer::from(3), 64);
    let text = q.to_decimal(19);
    assert!(text == "0.3333333333333333333" || text == "0.3333333333333333332");
}

#[test]
fn inverse_square_root_of_two() {
    let x = Fixed::inv_sqrt_u64(2, 64);
    assert_eq!(x.to_decimal(15), "0.707106781186547");
    let y = Fixed::inv_sqrt_u64(10_005, 128);
    assert_eq!(y.to_decimal(30), "0.009997500937109545821568434570");
}

#[test]
fn digit_counts_that_fit() {
    assert!(can_compute(0));
    assert!(can_compute(1_000_000));
    assert!(!can_compute(usize::MAX));
    assert_eq!(can_compute(500_000_000_000), false);
}

#[test]
fn a_late_term_still_computes() {
    let t = Chudnovsky.term(30_000_000_000);
    assert!(!t.t_positive.is_zero());
    assert!(t.t_negative.is_zero());
    assert_eq!(Chudnovsky.term(2).p.to_decimal_string(), "231");
}

#[test]
fn reciprocal_seeds() {
    assert_eq!(reciprocal_seed(&Integer::from(7), 8).to_decimal_string(), "36");
    assert!(reciprocal_seed(&Integer::one().shl_ref(60), 10).is_zero());
    let d = Integer::from(u64::MAX);
    let s = reciprocal_seed(&d, 128);
    // 2^128 / (2^64 - 1) = 2^64 + 1, seeded from the top 53 bits
    assert!(s.ge(&Integer::one().shl_ref(64).add_ref(&Integer::one())));
}

#[test]
fn inverse_square_root_above_the_precision() {
    // n = 2^12 is above 2^10, yet every step finds n x^2 at most 3
    let x = Fixed::inv_sqrt_u64(4096, 10);
    assert_eq!(x.to_decimal(8), "0.03515625");
    assert!(Fixed::try_inv_sqrt_u64(4096, 10).is_some());
}

#[test]
fn inverse_square_root_step_that_cannot_be_taken() {
    // from 2^41 / sqrt(2^43) the iterate grows until n x^2 passes 3
    assert!(Fixed::try_inv_sqrt_u64(1u64 << 43, 41).is_none());
    let x = Fixed::try_inv_sqrt_u64(2, 64);
    assert!(x.is_some());
    assert_eq!(x.unwrap().to_decimal(15), "0.707106781186547");
}
