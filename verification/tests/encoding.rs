use fri_commit::encode_decimal;

#[test]
fn encode_decimal_writes_digits_without_leading_zeros() {
    assert_eq!(encode_decimal(0), b"0".to_vec());
    assert_eq!(encode_decimal(7), b"7".to_vec());
    assert_eq!(encode_decimal(10), b"10".to_vec());
    assert_eq!(encode_decimal(3589), b"3589".to_vec());
    assert_eq!(encode_decimal(1_000_000), b"1000000".to_vec());
}

#[test]
fn encode_decimal_writes_a_minus_sign_for_negative_values() {
    assert_eq!(encode_decimal(-1), b"-1".to_vec());
    assert_eq!(encode_decimal(-907), b"-907".to_vec());
}

#[test]
fn encode_decimal_covers_the_whole_range() {
    assert_eq!(
        encode_decimal(i128::MAX),
        b"170141183460469231731687303715884105727".to_vec()
    );
    assert_eq!(
        encode_decimal(i128::MIN),
        b"-170141183460469231731687303715884105728".to_vec()
    );
}

#[test]
fn encode_decimal_agrees_with_the_standard_text() {
    let mut v: i128 = 1;
    for _ in 0..40 {
        for candidate in [v, v.wrapping_neg(), v.wrapping_sub(1), v.wrapping_add(1)] {
            assert_eq!(encode_decimal(candidate), candidate.to_string().into_bytes());
        }
        v = v.wrapping_mul(7).wrapping_add(3);
    }
}

#[test]
fn encode_decimal_tells_values_apart() {
    let values: [i128; 8] = [0, 1, -1, 10, -10, 100, 11, -11];
    for a in values {
        for b in values {
            assert_eq!(a == b, encode_decimal(a) == encode_decimal(b));
        }
    }
}
