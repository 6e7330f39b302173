use poly_ring::Polynomial;

#[test]
fn test_polynomial_initializes() {
    let p_over_z = Polynomial::new(vec![-7, 4, -100]);
    assert_eq!(p_over_z.to_string(), "-7 + 4x + -100x^2".to_string());

    let same_p_over_z = Polynomial::new(vec![-7, 4, -100, 0, 0]);
    assert_eq!(p_over_z, same_p_over_z);
}

#[test]
fn test_new_term() {
    assert_eq!(
        Polynomial::new_term(31, 4),
        Polynomial::new(vec![0, 0, 0, 0, 31])
    );
    assert_eq!(Polynomial::new_term(0, 7), Polynomial::zero());
    assert_eq!(Polynomial::new_term(5, 0), Polynomial::new(vec![5]));
}

#[test]
fn test_degree() {
    assert_eq!(Polynomial::zero().get_degree(), -1);
    assert_eq!(Polynomial::new(vec![5, 4, 3, 2, 1]).get_degree(), 4);
}

#[test]
fn test_polynomial_adds() {
    let p = Polynomial::new(vec![3, 2, 1, 0]);
    let q = Polynomial::new(vec![9, 5, 4, 2, 2]);

    let r = p.add(&q);
    assert_eq!(r, Polynomial::new(vec![12, 7, 5, 2, 2]));
    assert_eq!(q.add(&p), r);
}

#[test]
fn test_zero() {
    assert_eq!(Polynomial::zero(), Polynomial::new(vec![0, 0, 0]));
}

#[test]
fn test_polynomial_adds_zero() {
    let p = Polynomial::new(vec![3, 2, 1]);
    let q = Polynomial::zero();

    let r = p.add(&q);
    assert_eq!(r, p);
    assert_eq!(q.add(&p), r);
}

#[test]
fn test_polynomial_multiplies() {
    let p = Polynomial::new(vec![9, 3, 1]); // x^2 + 3x + 9
    let q = Polynomial::new(vec![5, 1]); // x + 5

    let r = p.mul(&q); // x^3 + 8x^2 + 12x + 45
    assert_eq!(r, Polynomial::new(vec![45, 24, 8, 1]));
    assert_eq!(r, q.mul(&p));
}

#[test]
fn test_polynomial_multiplies_zero() {
    let p = Polynomial::new(vec![9, 3, 1]);
    let q = Polynomial::zero();

    let r = p.mul(&q);
    assert_eq!(r, Polynomial::zero());
    assert_eq!(r, q.mul(&p));
}

#[test]
fn test_addition_cancels_leading_terms() {
    let p = Polynomial::new(vec![1, 2, 3]);
    let q = Polynomial::new(vec![1, 1, -3]);
    assert_eq!(p.add(&q), Polynomial::new(vec![2, 3]));
    assert_eq!(p.add(&q).get_degree(), 1);
}

#[test]
fn test_addition_associates() {
    let p = Polynomial::new(vec![1, -4, 9]);
    let q = Polynomial::new(vec![2, 2]);
    let r = Polynomial::new(vec![-3, 2, -9, 1]);
    assert_eq!(p.add(&q).add(&r), p.add(&q.add(&r)));
}

#[test]
fn test_multiplication_distributes() {
    let p = Polynomial::new(vec![1, -4, 9]);
    let q = Polynomial::new(vec![2, 2]);
    let r = Polynomial::new(vec![-3, 2, -9, 1]);
    assert_eq!(p.add(&q).mul(&r), p.mul(&r).add(&q.mul(&r)));
}

#[test]
fn test_is_zero() {
    assert!(Polynomial::zero().is_zero());
    assert!(Polynomial::new(vec![0, 0]).is_zero());
    assert!(!Polynomial::new(vec![0, 1]).is_zero());
}

#[test]
fn test_rendering() {
    assert_eq!(Polynomial::zero().to_string(), "0".to_string());
    assert_eq!(Polynomial::new(vec![7]).to_string(), "7".to_string());
    assert_eq!(Polynomial::new(vec![0, 1]).to_string(), "0 + 1x".to_string());
    assert_eq!(
        Polynomial::new(vec![3, 9, -12, 4]).to_string(),
        "3 + 9x + -12x^2 + 4x^3".to_string()
    );
    assert_eq!(
        Polynomial::new(vec![-205, 0, 0, 0, 0, 0, 0, 0, 0, 0, 1]).to_string(),
        "-205 + 0x + 0x^2 + 0x^3 + 0x^4 + 0x^5 + 0x^6 + 0x^7 + 0x^8 + 0x^9 + 1x^10".to_string()
    );
    assert_eq!(
        Polynomial::new(vec![i64::MIN, i64::MAX]).to_string(),
        "-9223372036854775808 + 9223372036854775807x".to_string()
    );
}

#[test]
fn test_checked_add_detects_overflow() {
    let p = Polynomial::new(vec![i64::MAX]);
    let q = Polynomial::new(vec![1]);
    assert!(p.checked_add(&q).is_none());
    assert_eq!(
        p.checked_add(&Polynomial::new(vec![-1])).unwrap(),
        Polynomial::new(vec![i64::MAX - 1])
    );
}

#[test]
fn test_large_coefficients_add() {
    let p = Polynomial::new(vec![i64::MAX, i64::MIN]);
    let q = Polynomial::new(vec![i64::MIN, i64::MAX]);
    assert_eq!(p.add(&q), Polynomial::new(vec![-1, -1]));
}
