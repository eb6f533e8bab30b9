use shamir_sharing::field::{add, mul};
use shamir_sharing::poly::{evaluate, interpolate, lagrange_weights, weighted_sum};

#[test]
fn evaluate_empty_polynomial_is_zero() {
    assert_eq!(evaluate(&[], 0), 0);
    assert_eq!(evaluate(&[], 77), 0);
}

#[test]
fn evaluate_constant_polynomial() {
    for x in 0..=255u8 {
        assert_eq!(evaluate(&[0x41], x), 0x41);
    }
}

#[test]
fn evaluate_at_zero_is_constant_term() {
    assert_eq!(evaluate(&[9, 200, 13, 77], 0), 9);
}

#[test]
fn evaluate_known_values() {
    assert_eq!(evaluate(&[5, 6, 7], 2), 21);
    assert_eq!(evaluate(&[0x41, 1, 1], 2), 71);
    assert_eq!(evaluate(&[0x41, 1, 1], 3), 71);
    assert_eq!(evaluate(&[0x41, 0x11, 0x22], 1), 114);
    assert_eq!(evaluate(&[0x41, 0x11, 0x22], 4), 31);
}

#[test]
fn evaluate_matches_sum_of_monomials() {
    let coeffs = [17u8, 99, 250, 3];
    for x in 0..=255u8 {
        let x2 = mul(x, x);
        let x3 = mul(x2, x);
        let expected = add(
            add(coeffs[0], mul(coeffs[1], x)),
            add(mul(coeffs[2], x2), mul(coeffs[3], x3)),
        );
        assert_eq!(evaluate(&coeffs, x), expected);
    }
}

#[test]
fn lagrange_weights_known_values() {
    assert_eq!(lagrange_weights(&[1, 2, 3]), vec![1, 1, 1]);
    assert_eq!(lagrange_weights(&[9]), vec![1]);
    assert_eq!(lagrange_weights(&[]), Vec::<u8>::new());
}

#[test]
fn lagrange_weights_sum_to_one() {
    let xs: Vec<u8> = (1..=255u8).collect();
    for m in 1..=255usize {
        let ws = lagrange_weights(&xs[..m]);
        assert_eq!(ws.len(), m);
        let mut sum = 0u8;
        for w in ws {
            sum = add(sum, w);
        }
        assert_eq!(sum, 1);
    }
}

#[test]
fn weighted_sum_known_values() {
    assert_eq!(weighted_sum(&[], &[]), 0);
    assert_eq!(weighted_sum(&[7], &[1]), 7);
    assert_eq!(weighted_sum(&[2, 3], &[3, 7]), add(mul(2, 3), mul(3, 7)));
    assert_eq!(weighted_sum(&[2, 3], &[3, 7]), 15);
}

#[test]
fn interpolate_recovers_constant_term() {
    let coeffs = [0x5au8, 1, 200, 33];
    let xs = [3u8, 11, 200, 7, 99];
    let ys: Vec<u8> = xs.iter().map(|x| evaluate(&coeffs, *x)).collect();
    assert_eq!(interpolate(&xs, &ys), 0x5a);
    assert_eq!(interpolate(&xs[..4], &ys[..4]), 0x5a);
}

#[test]
fn interpolate_single_point_returns_its_value() {
    assert_eq!(interpolate(&[5], &[123]), 123);
}

#[test]
fn interpolate_with_a_point_at_zero_returns_its_value() {
    let coeffs = [0x21u8, 4, 9];
    let xs = [0u8, 6, 8];
    let ys: Vec<u8> = xs.iter().map(|x| evaluate(&coeffs, *x)).collect();
    assert_eq!(interpolate(&xs, &ys), 0x21);
}
