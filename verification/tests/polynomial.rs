use fri_commit::{FriError, Polynomial};

fn poly(coefficients: &[i128]) -> Polynomial {
    Polynomial::new(coefficients.to_vec())
}

#[test]
fn new_keeps_the_coefficients_as_given() {
    let p = Polynomial::new(vec![3, 1, 2, 0, 0]);
    assert_eq!(p.coefficients, vec![3, 1, 2, 0, 0]);
}

#[test]
fn evaluate_sums_the_terms() {
    // 3 + x + 2x^2 + 7x^3 + 3x^4 + 5x^5
    let p = poly(&[3, 1, 2, 7, 3, 5]);
    assert_eq!(p.evaluate(0), Ok(3));
    assert_eq!(p.evaluate(1), Ok(21));
    assert_eq!(p.evaluate(4), Ok(6375));
    assert_eq!(p.evaluate(-1), Ok(3 - 1 + 2 - 7 + 3 - 5));
    assert_eq!(p.evaluate(256), Ok(5_510_560_612_611));
}

#[test]
fn evaluate_of_the_empty_polynomial_is_zero() {
    assert_eq!(poly(&[]).evaluate(12345), Ok(0));
}

#[test]
fn evaluate_takes_x_to_the_zero_as_one_even_at_zero() {
    assert_eq!(poly(&[9]).evaluate(0), Ok(9));
    assert_eq!(poly(&[9, 4]).evaluate(0), Ok(9));
}

#[test]
fn evaluate_of_a_constant_ignores_the_point() {
    let p = poly(&[-42]);
    assert_eq!(p.evaluate(i128::MAX), Ok(-42));
    assert_eq!(p.evaluate(i128::MIN), Ok(-42));
}

#[test]
fn evaluate_reaches_the_ends_of_the_range() {
    assert_eq!(poly(&[0, 1]).evaluate(i128::MAX), Ok(i128::MAX));
    assert_eq!(poly(&[0, 1]).evaluate(i128::MIN), Ok(i128::MIN));
    assert_eq!(poly(&[-1, 1]).evaluate(i128::MIN + 1), Ok(i128::MIN));
}

#[test]
fn evaluate_reports_a_power_that_overflows() {
    // x^2 is not representable, although its coefficient is zero.
    let x: i128 = 1 << 100;
    assert_eq!(poly(&[5, 0, 0]).evaluate(x), Err(FriError::ArithmeticOverflow));
}

#[test]
fn evaluate_reports_a_term_that_overflows() {
    assert_eq!(poly(&[0, 2]).evaluate(i128::MAX), Err(FriError::ArithmeticOverflow));
}

#[test]
fn evaluate_reports_a_partial_sum_that_overflows() {
    assert_eq!(poly(&[1, 1]).evaluate(i128::MAX), Err(FriError::ArithmeticOverflow));
    // The full sum would fit, the partial sum after two terms does not.
    assert_eq!(
        poly(&[i128::MAX, 1, -1]).evaluate(1),
        Err(FriError::ArithmeticOverflow)
    );
}

#[test]
fn add_pads_the_shorter_operand_with_zeros() {
    let a = poly(&[1, 2, 3]);
    let b = poly(&[10, 20]);
    assert_eq!(a.add(&b).unwrap().coefficients, vec![11, 22, 3]);
    assert_eq!(b.add(&a).unwrap().coefficients, vec![11, 22, 3]);
}

#[test]
fn add_keeps_high_order_zeros() {
    let a = poly(&[1, 2, 3]);
    let b = poly(&[0, 0, -3]);
    assert_eq!(a.add(&b).unwrap().coefficients, vec![1, 2, 0]);
}

#[test]
fn add_of_empty_polynomials_is_empty() {
    assert_eq!(poly(&[]).add(&poly(&[])).unwrap().coefficients, Vec::<i128>::new());
    assert_eq!(poly(&[]).add(&poly(&[4])).unwrap().coefficients, vec![4]);
}

#[test]
fn add_reports_a_coefficient_that_overflows() {
    let a = poly(&[0, i128::MAX]);
    let b = poly(&[0, 1]);
    assert!(matches!(a.add(&b), Err(FriError::ArithmeticOverflow)));
    let c = poly(&[i128::MIN]);
    let d = poly(&[-1, 5]);
    assert!(matches!(c.add(&d), Err(FriError::ArithmeticOverflow)));
}

#[test]
fn add_is_commutative_on_samples() {
    let samples: [&[i128]; 4] = [&[], &[7], &[1, -2, 3], &[0, 0, 0, 9, -9]];
    for a in samples.iter() {
        for b in samples.iter() {
            let ab = poly(a).add(&poly(b)).unwrap().coefficients;
            let ba = poly(b).add(&poly(a)).unwrap().coefficients;
            assert_eq!(ab, ba);
        }
    }
}

#[test]
fn a_sum_evaluates_to_the_sum_of_the_evaluations() {
    let a = poly(&[3, 1, 2, 7]);
    let b = poly(&[-5, 0, 11]);
    let sum = a.add(&b).unwrap();
    for x in [-3i128, -1, 0, 1, 2, 10, 1000] {
        assert_eq!(
            sum.evaluate(x).unwrap(),
            a.evaluate(x).unwrap() + b.evaluate(x).unwrap()
        );
    }
}
