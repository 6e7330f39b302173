use poly_ring::Polynomial;
use poly_ring::QuotientRing;
use poly_ring::RingError;

#[test]
fn test_quotient_ring_gets_representative() {
    // f(x) = x => x = 0 => should reduce to a_0
    let ring = QuotientRing::new(Polynomial::new(vec![0, 1])).unwrap();
    assert_eq!(
        ring.get_representative(Polynomial::new(vec![9, 3, -1, 14, 7, 2, 3])).unwrap(),
        Polynomial::new(vec![9])
    );

    // f(x) = x^2 - 2 => x^2 = 2
    let ring = QuotientRing::new(Polynomial::new(vec![2, 0, -1])).unwrap();
    let p = Polynomial::new(vec![-5, -1, 1, 3]); // 3x^3 + x^2 - x - 5 => 3*2*x + 2 - x - 5 = 5x - 3
    assert_eq!(ring.get_representative(p).unwrap(), Polynomial::new(vec![-3, 5]));
}

#[test]
fn test_zero_modulus_is_rejected() {
    let r = QuotientRing::new(Polynomial::zero());
    assert_eq!(r.unwrap_err(), RingError::ZeroModulus);

    let also_zero = QuotientRing::new(Polynomial::new(vec![0, 0, 0]));
    assert_eq!(also_zero.unwrap_err(), RingError::ZeroModulus);
}

#[test]
fn test_reduction_is_idempotent() {
    let ring = QuotientRing::new(Polynomial::new(vec![2, 0, -1])).unwrap();
    let p = Polynomial::new(vec![-5, -1, 1, 3]);
    let once = ring.get_representative(p).unwrap();
    let twice = ring.get_representative(once.clone()).unwrap();
    assert_eq!(once, twice);
    assert!(once.get_degree() < 2);
}

#[test]
fn test_element_below_modulus_is_unchanged() {
    let ring = QuotientRing::new(Polynomial::new(vec![1, 0, 0, 1])).unwrap();
    let p = Polynomial::new(vec![4, -2, 7]);
    assert_eq!(ring.get_representative(p.clone()).unwrap(), p);
}

#[test]
fn test_inexact_division_is_reported() {
    // modulus 2x: reducing x would need the coefficient 1/2
    let ring = QuotientRing::new(Polynomial::new(vec![0, 2])).unwrap();
    let r = ring.get_representative(Polynomial::new(vec![0, 1]));
    assert_eq!(r.unwrap_err(), RingError::InexactDivision);
}

#[test]
fn test_reduction_overflow_is_reported() {
    // modulus -x: the leading coefficient i64::MIN / -1 does not fit
    let ring = QuotientRing::new(Polynomial::new(vec![0, -1])).unwrap();
    let r = ring.get_representative(Polynomial::new(vec![0, i64::MIN]));
    assert_eq!(r.unwrap_err(), RingError::Overflow);
}

#[test]
fn test_subtrahend_overflow_is_reported() {
    // modulus x + i64::MAX: the quotient coefficient 3 scales the modulus's
    // constant term past i64::MAX
    let ring = QuotientRing::new(Polynomial::new(vec![i64::MAX, 1])).unwrap();
    let r = ring.get_representative(Polynomial::new(vec![0, 0, 3]));
    assert_eq!(r.unwrap_err(), RingError::Overflow);
}

#[test]
fn test_remainder_overflow_is_reported() {
    // modulus x + i64::MAX again: the elimination step adds -i64::MAX to a
    // coefficient that is already -i64::MAX
    let ring = QuotientRing::new(Polynomial::new(vec![i64::MAX, 1])).unwrap();
    let r = ring.get_representative(Polynomial::new(vec![-5, -i64::MAX, 1]));
    assert_eq!(r.unwrap_err(), RingError::Overflow);
}

#[test]
fn test_negative_leading_coefficients_divide() {
    // modulus -x^2 + 1 (x^2 = 1); reducing -3x^3 gives -3x
    let ring = QuotientRing::new(Polynomial::new(vec![1, 0, -1])).unwrap();
    let r = ring.get_representative(Polynomial::new(vec![0, 0, 0, -3])).unwrap();
    assert_eq!(r, Polynomial::new(vec![0, -3]));
}
