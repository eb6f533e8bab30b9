use shamir_sharing::field::{add, inverse, mul, pow};

#[test]
fn add_is_bitwise_xor() {
    assert_eq!(add(0x53, 0xca), 0x99);
    assert_eq!(add(0, 0x7f), 0x7f);
    assert_eq!(add(0xff, 0x0f), 0xf0);
}

#[test]
fn add_of_an_element_to_itself_is_zero() {
    for a in 0..=255u8 {
        assert_eq!(add(a, a), 0);
    }
}

#[test]
fn add_is_associative() {
    for a in (0..=255u8).step_by(5) {
        for b in (0..=255u8).step_by(3) {
            for c in (0..=255u8).step_by(7) {
                assert_eq!(add(a, add(b, c)), add(add(a, b), c));
            }
        }
    }
}

#[test]
fn mul_known_products() {
    assert_eq!(mul(0x80, 2), 0x1d);
    assert_eq!(mul(0x53, 0xca), 0x8f);
    assert_eq!(mul(0xff, 0xff), 0xe2);
    assert_eq!(mul(3, 7), 9);
}

#[test]
fn mul_by_zero_and_one() {
    for a in 0..=255u8 {
        assert_eq!(mul(a, 0), 0);
        assert_eq!(mul(0, a), 0);
        assert_eq!(mul(a, 1), a);
        assert_eq!(mul(1, a), a);
    }
}

#[test]
fn mul_is_commutative() {
    for a in 0..=255u8 {
        for b in 0..=255u8 {
            assert_eq!(mul(a, b), mul(b, a));
        }
    }
}

#[test]
fn mul_is_associative() {
    for a in (0..=255u8).step_by(5) {
        for b in (0..=255u8).step_by(3) {
            for c in (0..=255u8).step_by(7) {
                assert_eq!(mul(a, mul(b, c)), mul(mul(a, b), c));
            }
        }
    }
}

#[test]
fn mul_distributes_over_add() {
    for a in (0..=255u8).step_by(3) {
        for b in (0..=255u8).step_by(5) {
            for c in (0..=255u8).step_by(7) {
                assert_eq!(mul(a, add(b, c)), add(mul(a, b), mul(a, c)));
            }
        }
    }
}

#[test]
fn mul_agrees_with_gf256_for_every_pair() {
    for a in 0..=255u8 {
        for b in 0..=255u8 {
            let expected = (gf256::gf256::new(a) * gf256::gf256::new(b)).get();
            assert_eq!(mul(a, b), expected);
        }
    }
}

#[test]
fn inverse_known_values() {
    assert_eq!(inverse(1), 1);
    assert_eq!(inverse(2), 0x8e);
    assert_eq!(inverse(0x53), 0x8c);
}

#[test]
fn element_times_its_inverse_is_one() {
    for a in 1..=255u8 {
        assert_eq!(mul(a, inverse(a)), 1);
        assert_eq!(mul(inverse(a), a), 1);
    }
}

#[test]
fn inverse_agrees_with_gf256() {
    for a in 1..=255u8 {
        assert_eq!(inverse(a), gf256::gf256::new(a).recip().get());
    }
}

#[test]
fn pow_known_values() {
    assert_eq!(pow(2, 8), 0x1d);
    assert_eq!(pow(3, 5), 0x33);
    assert_eq!(pow(2, 254), 0x8e);
    assert_eq!(pow(7, 255), 1);
}

#[test]
fn pow_with_exponent_zero_is_one() {
    for a in 0..=255u8 {
        assert_eq!(pow(a, 0), 1);
    }
}

#[test]
fn pow_is_repeated_multiplication() {
    for a in 0..=255u8 {
        let mut expected = 1u8;
        for n in 0..20u64 {
            assert_eq!(pow(a, n), expected);
            expected = mul(a, expected);
        }
    }
}

#[test]
fn pow_of_nonzero_element_to_255_is_one() {
    for a in 1..=255u8 {
        assert_eq!(pow(a, 255), 1);
    }
}

#[test]
fn pow_handles_large_exponents() {
    assert_eq!(pow(2, 255 * 1_000_000_007 + 8), 0x1d);
    assert_eq!(pow(0, u64::MAX), 0);
}

#[test]
fn inverse_is_the_only_element_with_product_one() {
    for a in 1..=255u8 {
        for b in 0..=255u8 {
            assert_eq!(mul(a, b) == 1, b == inverse(a));
        }
    }
}
