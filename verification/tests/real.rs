use lib::number::integer::Integer;
use lib::number::reals::Real;
use lib::bigint::Integer as Natural;

/// The two-limb start of the reciprocal of `a`: `2^128` over its two leading
/// limbs, in floating point.
fn float_seed(a: &Integer) -> Integer {
    let base = 18446744073709551616.0f64;
    let n = a.limbs.len();
    let h = a.limbs[n - 1] as f64 * base + a.limbs[n - 2] as f64;
    let x = base * base / h;
    let x0 = x as u64;
    let x1 = ((x - x0 as f64) * base) as u64;
    Integer { limbs: vec![x1, x0] }
}

fn xorshift64_next(mut x: u64) -> u64 {
    x ^= x << 7;
    x ^= x >> 9;
    x
}

#[test]
fn test_invert() {
    let mut t = 12384348u64;
    for n in [100usize, 500, 1000] {
        let mut a = vec![0u64];
        for _ in 0..n {
            a.push(t);
            t = xorshift64_next(t);
        }
        let a = Integer { limbs: a };
        let mut x = Real::from(a.clone());
        let seed = float_seed(&a);
        x.invert(n, seed);
        x.mantissa.mul_assign(&a);
        let len = x.mantissa.len();
        x.mantissa.shift_down_limbs(len - n + 1);
        println!("n = {}", n);
        assert!(x.mantissa.limbs[0] >= (!0u64) - 1);
    }
}

#[test]
fn reciprocal_can_end_just_above() {
    // The product of a and its reciprocal can end above 2^(64 point), by less
    // than 2^(64 len(a))
    let limbs = vec![0xde5271007814e8a2u64, 0x617959ce3f1f65a8, 0x1a1afe878b33e968];
    let a = Integer { limbs: limbs.clone() };
    let mut x = Real::from(a.clone());
    let seed = float_seed(&a);
    x.invert(2, seed);
    assert_eq!(x.point, 4);
    assert_eq!(x.mantissa.limbs, vec![0xce6f1a9c3bb62180, 0x9]);
    let product = Natural::from_limbs(x.mantissa.limbs.clone()).mul_ref(&Natural::from_limbs(limbs));
    let unit = Natural::one().shl_ref(256);
    assert!(product.ge(&unit));
    let excess = product.sub_ref(&unit);
    assert!(Natural::one().shl_ref(64 * 3).ge(&excess));
}

/// `|x a - 2^(64 point)|`, and whether the product is at least `2^(64 point)`.
fn reciprocal_error(x: &Real, a: &[u64]) -> (Natural, bool) {
    let product = Natural::from_limbs(x.mantissa.limbs.clone()).mul_ref(&Natural::from_limbs(a.to_vec()));
    let unit = Natural::one().shl_ref(64 * x.point);
    if product.ge(&unit) {
        (product.sub_ref(&unit), true)
    } else {
        (unit.sub_ref(&product), false)
    }
}

#[test]
fn reciprocal_is_close_to_62_bits() {
    // |x a - 2^(64 point)| 2^62 <= 2^(64 point) + 2^62 2^(64 len(a))
    let mut t = 12384348u64;
    for n in [2usize, 3, 8, 100] {
        let mut a = vec![0u64];
        for _ in 0..n {
            a.push(t);
            t = xorshift64_next(t);
        }
        let limbs = a.clone();
        let a = Integer { limbs: a };
        let mut x = Real::from(a.clone());
        let seed = float_seed(&a);
        assert!(x.try_invert(n, seed));
        assert_eq!(x.point, limbs.len() + n - 1);
        let (error, _) = reciprocal_error(&x, &limbs);
        let bound = Natural::one()
            .shl_ref(64 * x.point)
            .add_ref(&Natural::one().shl_ref(64 * limbs.len() + 62));
        assert!(bound.ge(&error.shl_ref(62)));
    }
}

#[test]
fn reciprocal_with_a_top_limb_of_one_is_close() {
    // a top limb of 1 with the next limb at least 5
    for limbs in [
        vec![0x0123456789abcdefu64, 0xfedcba9876543210, 5, 1],
        vec![0u64, 0, 0x8000_0000_0000_0000, 1],
        vec![u64::MAX, u64::MAX, u64::MAX, 1],
    ] {
        let a = Integer { limbs: limbs.clone() };
        let mut x = Real::from(a.clone());
        let seed = float_seed(&a);
        assert!(x.try_invert(3, seed));
        let (error, _) = reciprocal_error(&x, &limbs);
        let bound = Natural::one()
            .shl_ref(64 * x.point)
            .add_ref(&Natural::one().shl_ref(64 * limbs.len() + 62));
        assert!(bound.ge(&error.shl_ref(62)));
    }
}

#[test]
fn reciprocal_error_can_exceed_one_unit() {
    // The product can miss 2^(64 point) by more than one unit of
    // 2^(64 len(a)): here by about 1.5 units, from below
    let limbs = vec![0xf377da012bded18bu64, 0xa1366e29235130f2, 0xc9e8b33708082eae, 0xc1446f92ff3ebdc5];
    let a = Integer { limbs: limbs.clone() };
    let mut x = Real::from(a.clone());
    let seed = float_seed(&a);
    x.invert(3, seed);
    assert_eq!(x.point, 6);
    assert_eq!(x.mantissa.limbs, vec![0xf9434b1be8013b4a, 0x531857347d0a8883, 0x1]);
    let (error, above) = reciprocal_error(&x, &limbs);
    assert!(!above);
    assert!(error.ge(&Natural::one().shl_ref(64 * 4)));
    assert!(Natural::one().shl_ref(64 * 4 + 1).ge(&error));
}

#[test]
fn reciprocal_with_a_full_top_limb_can_miss() {
    // With a top limb of 2^64 - 1 an intermediate step can leave one limb
    // fewer, and the next step then reads it at another scale: the result
    // is not close, though the two-limb seed is within 2^-40
    let limbs = vec![
        0xf9143ef599b9ede7u64,
        0xffffffffffffffff,
        0xffffffffffffffff,
        0xffffffffffffffff,
        0xffffffffffffffff,
    ];
    let a = Integer { limbs: limbs.clone() };
    let mut x = Real::from(a);
    assert!(x.try_invert(5, Integer { limbs: vec![0x1000000, 0x1] }));
    assert_eq!(x.point, 9);
    let (error, _) = reciprocal_error(&x, &limbs);
    let bound = Natural::one()
        .shl_ref(64 * x.point)
        .add_ref(&Natural::one().shl_ref(64 * limbs.len() + 62));
    assert!(!bound.ge(&error.shl_ref(62)));
}
