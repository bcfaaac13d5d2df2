use lib::bigint::Integer;
use lib::binary_fixed::Fixed;
use lib::formula::compute_pi;

#[test]
fn divides_with_newton() {
    let q = Fixed::divide(Integer::one(), Integer::from(7), 256);
    assert!(q
        .to_decimal(40)
        .starts_with("0.1428571428571428571428571428571428571428"));
}

#[test]
fn inverse_square_root_is_accurate() {
    let inv = Fixed::inv_sqrt_u64(10_005, 256);
    assert!(inv.to_decimal(50).starts_with("0.009997500937109545"));
}

#[test]
fn computes_first_100_digits() {
    assert_eq!(
        compute_pi(100),
        "3.14159265358979323846264338327950288419716939937510\
         58209749445923078164062862089986280348253421170679"
            .replace(' ', "")
    );
}
