use fri_commit::{next_fri_domain, next_fri_polynomial, FriError, Polynomial};

#[test]
fn next_domain_squares_the_first_half() {
    let domain = vec![1, 4, 8, 16, 32, 64, 128, 256];
    assert_eq!(next_fri_domain(domain), Ok(vec![1, 16, 64, 256]));
    assert_eq!(next_fri_domain(vec![1, 16, 64, 256]), Ok(vec![1, 256]));
    assert_eq!(next_fri_domain(vec![1, 256]), Ok(vec![1]));
}

#[test]
fn next_domain_squares_negative_elements() {
    assert_eq!(next_fri_domain(vec![-3, 5, 7, 9]), Ok(vec![9, 25]));
}

#[test]
fn next_domain_does_not_read_the_second_half() {
    // The squares of the second half would overflow; they are never taken.
    assert_eq!(next_fri_domain(vec![2, i128::MAX]), Ok(vec![4]));
}

#[test]
fn next_domain_of_an_odd_length_drops_the_unpaired_element() {
    assert_eq!(next_fri_domain(vec![2, 3, 5]), Ok(vec![4]));
    assert_eq!(next_fri_domain(vec![2]), Ok(vec![]));
}

#[test]
fn next_domain_of_the_empty_domain_is_empty() {
    assert_eq!(next_fri_domain(vec![]), Ok(vec![]));
}

#[test]
fn next_domain_reports_a_square_that_overflows() {
    let big: i128 = 1 << 64;
    assert_eq!(next_fri_domain(vec![big, 1]), Err(FriError::ArithmeticOverflow));
    assert_eq!(next_fri_domain(vec![1, big, 1, 1]), Err(FriError::ArithmeticOverflow));
    let fits: i128 = (1 << 63) - 1;
    assert_eq!(next_fri_domain(vec![fits, 1]), Ok(vec![fits * fits]));
}

#[test]
fn next_polynomial_adds_the_scaled_odd_part_to_the_even_part() {
    // even part [3, 2, 3], odd part [1, 7, 5]
    let poly = vec![3, 1, 2, 7, 3, 5];
    assert_eq!(next_fri_polynomial(poly.clone(), 2), Ok(vec![5, 16, 13]));
    assert_eq!(next_fri_polynomial(poly.clone(), 0), Ok(vec![3, 2, 3]));
    assert_eq!(next_fri_polynomial(poly.clone(), 1), Ok(vec![4, 9, 8]));
    assert_eq!(next_fri_polynomial(poly, -3), Ok(vec![0, -19, -12]));
}

#[test]
fn next_polynomial_of_an_odd_length_keeps_the_last_even_coefficient() {
    assert_eq!(next_fri_polynomial(vec![5, 16, 13], 2), Ok(vec![37, 13]));
    assert_eq!(next_fri_polynomial(vec![37, 13], 2), Ok(vec![63]));
}

#[test]
fn next_polynomial_of_short_polynomials() {
    assert_eq!(next_fri_polynomial(vec![], 2), Ok(vec![]));
    assert_eq!(next_fri_polynomial(vec![9], 2), Ok(vec![9]));
    assert_eq!(next_fri_polynomial(vec![9, 4], 2), Ok(vec![17]));
}

#[test]
fn next_polynomial_reports_a_scaled_coefficient_that_overflows() {
    assert_eq!(
        next_fri_polynomial(vec![0, i128::MAX], 2),
        Err(FriError::ArithmeticOverflow)
    );
    // The sum would fit, the scaled coefficient alone does not.
    assert_eq!(
        next_fri_polynomial(vec![i128::MIN, i128::MAX], 2),
        Err(FriError::ArithmeticOverflow)
    );
}

#[test]
fn next_polynomial_reports_a_sum_that_overflows() {
    assert_eq!(
        next_fri_polynomial(vec![i128::MAX, 1], 1),
        Err(FriError::ArithmeticOverflow)
    );
    assert_eq!(next_fri_polynomial(vec![i128::MAX, 1], -1), Ok(vec![i128::MAX - 1]));
}

#[test]
fn the_fold_at_a_square_is_even_plus_beta_times_odd() {
    let poly = vec![3, 1, 2, 7, 3, 5];
    let even = Polynomial::new(vec![3, 2, 3]);
    let odd = Polynomial::new(vec![1, 7, 5]);
    for beta in [-4i128, 0, 1, 2, 9] {
        let folded = Polynomial::new(next_fri_polynomial(poly.clone(), beta).unwrap());
        for x in [1i128, 4, 8, 16, -2] {
            let y = x * x;
            assert_eq!(
                folded.evaluate(y).unwrap(),
                even.evaluate(y).unwrap() + beta * odd.evaluate(y).unwrap()
            );
        }
    }
}

#[test]
fn folding_by_the_point_keeps_the_value() {
    let poly = vec![3, 1, 2, 7, 3, 5];
    let p = Polynomial::new(poly.clone());
    for x in [-3i128, 0, 1, 2, 7] {
        let folded = Polynomial::new(next_fri_polynomial(poly.clone(), x).unwrap());
        assert_eq!(folded.evaluate(x * x), p.evaluate(x));
    }
}
