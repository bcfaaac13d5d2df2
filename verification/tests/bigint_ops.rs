use lib::bigint::Integer;
use std::cmp::Ordering;

fn dec(x: &Integer) -> String {
    x.to_decimal_string()
}

#[test]
fn zero_and_one() {
    assert!(Integer::zero().is_zero());
    assert!(!Integer::one().is_zero());
    assert!(Integer::from(0).is_zero());
    assert_eq!(dec(&Integer::zero()), "0");
    assert_eq!(dec(&Integer::one()), "1");
    assert_eq!(Integer::zero().bits(), 0);
    assert_eq!(Integer::one().bits(), 1);
}

#[test]
fn addition_carries_into_a_new_limb() {
    let a = Integer::from(u64::MAX);
    let s = a.add_ref(&Integer::one());
    assert_eq!(dec(&s), "18446744073709551616");
    assert_eq!(s.num_limbs(), 2);
    assert_eq!(s.to_u64(), 0);
    assert_eq!(s.bits(), 65);
}

#[test]
fn subtraction_undoes_addition() {
    let a = Integer::from(u64::MAX).add_ref(&Integer::from(5));
    let b = a.sub_ref(&Integer::from(5));
    assert_eq!(dec(&b), "18446744073709551615");
    assert_eq!(b.num_limbs(), 1);
    let z = b.sub_ref(&b);
    assert!(z.is_zero());
}

#[test]
fn multiplication_of_two_limbs() {
    let a = Integer::from(u64::MAX);
    let p = a.mul_ref(&a);
    assert_eq!(dec(&p), "340282366920938463426481119284349108225");
    assert_eq!(p.to_limbs(), vec![1, u64::MAX - 1]);
    assert!(a.mul_ref(&Integer::zero()).is_zero());
    assert_eq!(dec(&Integer::from(12345).mul_u64(1000)), "12345000");
}

#[test]
fn shifts_round_trip() {
    let x = Integer::one().shl_ref(100);
    assert_eq!(dec(&x), "1267650600228229401496703205376");
    assert_eq!(x.bits(), 101);
    assert_eq!(dec(&x.shr_ref(100)), "1");
    assert!(x.shr_ref(101).is_zero());
    let y = Integer::from(0xabcd).shl_ref(77).shr_ref(77);
    assert_eq!(y.to_u64(), 0xabcd);
    assert_eq!(dec(&Integer::from(0x1234).shr_ref(4)), "291");
}

#[test]
fn division_by_small_numbers() {
    let x = Integer::one().shl_ref(100);
    assert_eq!(dec(&x.div_u64(3)), "422550200076076467165567735125");
    let (q, r) = Integer::from(12345).div_rem_u32(10);
    assert_eq!(dec(&q), "1234");
    assert_eq!(r, 5);
    assert!(Integer::from(7).div_u64(8).is_zero());
}

#[test]
fn top_bits_and_low_limb() {
    let x = Integer::one().shl_ref(100);
    assert_eq!(x.top_bits_u64(8), 128);
    assert_eq!(Integer::from(5).top_bits_u64(8), 5);
    assert_eq!(Integer::from(0xff00).top_bits_u64(4), 0xf);
    let y = Integer::one().shl_ref(64).add_ref(&Integer::from(5));
    assert_eq!(y.to_u64(), 5);
}

#[test]
fn comparison_follows_value() {
    let a = Integer::from(3);
    let b = Integer::one().shl_ref(64);
    assert_eq!(a.cmp(&b), Ordering::Less);
    assert_eq!(b.cmp(&a), Ordering::Greater);
    assert_eq!(b.cmp(&b.duplicate()), Ordering::Equal);
    assert!(b.ge(&a));
    assert!(!a.ge(&b));
    assert!(a.ge(&Integer::from(3)));
}

#[test]
fn decimal_text_pads_inner_groups() {
    let x = Integer::from(1_000_000_000_000_000_000).mul_u64(1000).add_ref(&Integer::one());
    assert_eq!(dec(&x), "1000000000000000000001");
}

#[test]
fn limbs_are_normalized() {
    let x = Integer::from_limbs(vec![5, 0, 0]);
    assert_eq!(x.num_limbs(), 1);
    assert_eq!(x.to_limbs(), vec![5]);
    assert!(Integer::from_limbs(vec![0, 0]).is_zero());
    assert_eq!(Integer::from_limbs(vec![0, 1]).bits(), 65);
}

#[test]
fn equal_values_are_equal_integers() {
    assert_eq!(Integer::from(5), Integer::from_limbs(vec![5, 0, 0]));
    assert_ne!(Integer::from(5), Integer::from(6));
    let x = Integer::one().shl_ref(70);
    assert_eq!(x.clone(), x.duplicate());
    assert_eq!(Integer::zero(), Integer::from(0));
}

#[test]
fn operators_match_the_named_methods() {
    let a = Integer::from(u64::MAX);
    let b = Integer::from(5);
    assert_eq!((a.clone() + &b).to_decimal_string(), "18446744073709551620");
    assert_eq!((&a - &b).to_decimal_string(), "18446744073709551610");
    assert_eq!((a.clone() - &b).to_decimal_string(), "18446744073709551610");
    assert_eq!((&a - b.clone()).to_decimal_string(), "18446744073709551610");
    assert_eq!((a.clone() - b.clone()).to_decimal_string(), "18446744073709551610");
    assert_eq!((&a * &b).to_decimal_string(), "92233720368547758075");
    assert_eq!((a.clone() * &b).to_decimal_string(), "92233720368547758075");
    assert_eq!((&a * b.clone()).to_decimal_string(), "92233720368547758075");
    assert_eq!((a.clone() * b.clone()).to_decimal_string(), "92233720368547758075");
    assert_eq!((&b << 70).to_decimal_string(), "5902958103587056517120");
    assert_eq!((b.clone() << 1).to_decimal_string(), "10");
    assert_eq!((&a >> 60).to_decimal_string(), "15");
    assert_eq!((a >> 64).to_decimal_string(), "0");
}
