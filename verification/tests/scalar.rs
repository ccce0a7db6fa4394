use fj_math::binary::from_binary64;
use fj_math::integer::{root_floor, Integer};
use fj_math::Scalar;

fn big(v: i64) -> Integer {
    Integer::from_i64(v)
}

fn same_integer(a: &Integer, b: &Integer) -> bool {
    a.sub(b).signum() == 0
}

#[test]
fn integers_keep_every_digit() {
    let a = big(i64::MAX);
    // a * a - (a - 1) * (a + 1) = 1, far beyond 64 bits
    let square = a.mul(&a);
    let neighbours = a.sub(&big(1)).mul(&a.add(&big(1)));
    assert!(same_integer(&square.sub(&neighbours), &big(1)));
    // (2^63 - 1)^2 = 2^126 - 2^64 + 1
    assert_eq!(square.magnitude(), vec![1, 0, 0xffff_ffff, 0x3fff_ffff]);
    assert!(!square.is_negative());
}

#[test]
fn integers_carry_and_borrow_across_limbs() {
    let a = big(0xffff_ffff);
    let b = a.add(&big(1));
    assert_eq!(b.magnitude().iter().rev().skip_while(|l| **l == 0).count(), 2);
    assert!(same_integer(&b, &big(0x1_0000_0000)));
    assert!(same_integer(&b.sub(&big(1)), &a));
    assert!(same_integer(&big(i64::MIN).sub(&big(i64::MIN)), &big(0)));
    let huge = big(i64::MIN).mul(&big(i64::MIN));
    assert_eq!(huge.signum(), 1);
    assert!(same_integer(&huge.sub(&huge), &big(0)));
    assert!(same_integer(&big(i64::MIN).add(&big(i64::MAX)), &big(-1)));
}

#[test]
fn integers_have_signs() {
    assert_eq!(big(-5).signum(), -1);
    assert_eq!(big(0).signum(), 0);
    assert_eq!(big(7).signum(), 1);
    assert_eq!(big(5).neg().signum(), -1);
    assert_eq!(big(0).neg().signum(), 0);
    assert!(big(-1).is_negative());
    assert!(!big(0).neg().is_negative());
    assert_eq!(big(-3).mul(&big(-4)).signum(), 1);
    assert!(same_integer(&big(-3).mul(&big(4)), &big(-12)));
    assert!(same_integer(&big(3).sub(&big(10)), &big(-7)));
    assert!(same_integer(&big(-3).add(&big(10)), &big(7)));
    assert_eq!(big(i64::MIN).magnitude(), vec![0, 0x8000_0000]);
}

#[test]
fn scalars_are_exact() {
    let third = Scalar::ratio(1, 3).unwrap();
    let sum = third.add(&third).add(&third);
    assert_eq!(sum, Scalar::one());
    assert_eq!(Scalar::ratio(2, 4).unwrap(), Scalar::ratio(1, 2).unwrap());
    assert_eq!(Scalar::ratio(1, -2).unwrap(), Scalar::ratio(-1, 2).unwrap());
    assert_eq!(Scalar::ratio(-3, -6).unwrap(), Scalar::ratio(1, 2).unwrap());
    assert_ne!(Scalar::ratio(1, 3).unwrap(), Scalar::ratio(1, 2).unwrap());
    assert!(Scalar::ratio(1, 0).is_none());
    assert!(Scalar::ratio(0, 0).is_none());
}

#[test]
fn scalars_add_subtract_multiply_and_divide() {
    let a = Scalar::ratio(3, 4).unwrap();
    let b = Scalar::ratio(-5, 6).unwrap();
    assert_eq!(a.add(&b), Scalar::ratio(-1, 12).unwrap());
    assert_eq!(a.sub(&b), Scalar::ratio(19, 12).unwrap());
    assert_eq!(a.mul(&b), Scalar::ratio(-5, 8).unwrap());
    assert_eq!(a.div(&b), Scalar::ratio(-9, 10).unwrap());
    assert_eq!(b.div(&a), Scalar::ratio(-10, 9).unwrap());
    assert_eq!(a.neg(), Scalar::ratio(-3, 4).unwrap());
    assert_eq!(Scalar::zero().div(&b), Scalar::zero());
    assert_eq!(a.copy(), a);
}

#[test]
fn scalars_are_ordered() {
    let a = Scalar::ratio(3, 4).unwrap();
    let b = Scalar::ratio(-5, 6).unwrap();
    assert!(b.lt(&a));
    assert!(!a.lt(&b));
    assert!(!a.lt(&a));
    assert!(a.le(&a));
    assert!(b.le(&a));
    assert!(a.same(&Scalar::ratio(6, 8).unwrap()));
    assert_eq!(a.signum(), 1);
    assert_eq!(b.signum(), -1);
    assert_eq!(Scalar::zero().signum(), 0);
    assert!(Scalar::zero().is_zero());
    assert!(!a.is_zero());
    assert!(Scalar::ratio(i64::MAX, i64::MAX - 1).unwrap().lt(&Scalar::ratio(i64::MAX - 1, i64::MAX - 2).unwrap()));
}

#[test]
fn scalars_show_their_fraction() {
    let (n, d) = Scalar::ratio(6, -8).unwrap().fraction();
    assert_eq!(d.signum(), 1);
    assert_eq!(n.signum(), -1);
    // n / d = -3 / 4
    assert!(same_integer(&n.mul(&big(4)), &d.mul(&big(-3))));
}

#[test]
fn integer_roots_are_rounded_down() {
    assert!(same_integer(&root_floor(&big(0), &big(1)), &big(0)));
    assert!(same_integer(&root_floor(&big(1), &big(1)), &big(1)));
    assert!(same_integer(&root_floor(&big(10), &big(1)), &big(3)));
    assert!(same_integer(&root_floor(&big(16), &big(1)), &big(4)));
    assert!(same_integer(&root_floor(&big(99), &big(4)), &big(4)));
    assert!(same_integer(&root_floor(&big(100), &big(4)), &big(5)));
    assert!(same_integer(&root_floor(&big(3), &big(4)), &big(0)));
    let m = big(i64::MAX);
    let square = m.mul(&m);
    assert!(same_integer(&root_floor(&square, &big(1)), &m));
    assert!(same_integer(&root_floor(&square.sub(&big(1)), &big(1)), &m.sub(&big(1))));
}

#[test]
fn scalars_compare_with_operators() {
    let a = Scalar::ratio(3, 4).unwrap();
    let b = Scalar::ratio(-5, 6).unwrap();
    assert!(b < a);
    assert!(a > b);
    assert!(a <= a);
    assert!(a >= Scalar::ratio(6, 8).unwrap());
    assert!(!(a < Scalar::ratio(6, 8).unwrap()));
    assert_eq!(a.partial_cmp(&b), Some(std::cmp::Ordering::Greater));
    assert_eq!(b.partial_cmp(&a), Some(std::cmp::Ordering::Less));
    assert_eq!(a.partial_cmp(&a.clone()), Some(std::cmp::Ordering::Equal));
}

#[test]
fn bits_give_the_number_they_stand_for() {
    assert_eq!(from_binary64(0), Some(Scalar::zero()));
    assert_eq!(from_binary64(1u64 << 63), Some(Scalar::zero()));
    assert_eq!(from_binary64(1.0f64.to_bits()), Some(Scalar::one()));
    assert_eq!(from_binary64(0x3ff0_0000_0000_0000), Some(Scalar::one()));
    assert_eq!(from_binary64((-2.5f64).to_bits()), Scalar::ratio(-5, 2));
    assert_eq!(from_binary64(0.375f64.to_bits()), Scalar::ratio(3, 8));
    assert_eq!(from_binary64(1e15f64.to_bits()), Some(Scalar::from_i64(1_000_000_000_000_000)));
    assert_eq!(from_binary64(f64::EPSILON.to_bits()), Some(Scalar::default_epsilon()));
    // 0.1 is not a tenth
    assert_eq!(from_binary64(0.1f64.to_bits()), Scalar::ratio(3602879701896397, 1 << 55));
    // the smallest number above zero is 2^-1074
    let smallest = from_binary64(1).unwrap();
    let mut power = Scalar::one();
    for _ in 0..1074 {
        power = power.mul(&Scalar::from_i64(2));
    }
    assert_eq!(smallest.mul(&power), Scalar::one());
    assert_eq!(from_binary64(f64::INFINITY.to_bits()), None);
    assert_eq!(from_binary64(f64::NEG_INFINITY.to_bits()), None);
    assert_eq!(from_binary64(f64::NAN.to_bits()), None);
    assert!(from_binary64(f64::MAX.to_bits()).is_some());
}
