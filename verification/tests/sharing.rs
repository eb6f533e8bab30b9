use shamir_sharing::shamir::{
    reconstruct, split, split_with_coefficients, validate_shares, ShamirError,
};

fn next(state: &mut u64) -> u8 {
    *state = state
        .wrapping_mul(6364136223846793005)
        .wrapping_add(1442695040888963407);
    (*state >> 33) as u8
}

fn coefficients(state: &mut u64, secret_len: usize, threshold: usize) -> Vec<Vec<u8>> {
    let mut rows = Vec::new();
    for _ in 0..secret_len {
        let mut row = Vec::new();
        for _ in 1..threshold {
            row.push(next(state));
        }
        rows.push(row);
    }
    rows
}

fn subsets(n: usize, k: usize) -> Vec<Vec<usize>> {
    let mut all = Vec::new();
    let mut current = Vec::new();
    extend(n, k, 0, &mut current, &mut all);
    all
}

fn extend(n: usize, k: usize, from: usize, current: &mut Vec<usize>, all: &mut Vec<Vec<usize>>) {
    if current.len() == k {
        all.push(current.clone());
        return;
    }
    for i in from..n {
        current.push(i);
        extend(n, k, i + 1, current, all);
        current.pop();
    }
}

fn pick(shares: &[Vec<u8>], positions: &[usize]) -> Vec<Vec<u8>> {
    positions.iter().map(|p| shares[*p].clone()).collect()
}

#[test]
fn split_with_coefficients_known_shares() {
    let shares =
        split_with_coefficients(&[0x41, 0x42], 5, 3, &[vec![0x11, 0x22], vec![0x33, 0x44]])
            .unwrap();
    assert_eq!(
        shares,
        vec![
            vec![1, 114, 53],
            vec![2, 235, 41],
            vec![3, 216, 94],
            vec![4, 31, 186],
            vec![5, 44, 205],
        ]
    );
}

#[test]
fn split_with_coefficients_threshold_one_repeats_the_secret() {
    let shares = split_with_coefficients(&[7, 8, 9], 4, 1, &[vec![], vec![], vec![]]).unwrap();
    assert_eq!(
        shares,
        vec![vec![1, 7, 8, 9], vec![2, 7, 8, 9], vec![3, 7, 8, 9], vec![4, 7, 8, 9]]
    );
}

#[test]
fn split_with_coefficients_rejects_wrong_coefficient_shape() {
    assert_eq!(
        split_with_coefficients(&[1, 2], 3, 2, &[vec![5]]),
        Err(ShamirError::InvalidParameters)
    );
    assert_eq!(
        split_with_coefficients(&[1, 2], 3, 2, &[vec![5], vec![6, 7]]),
        Err(ShamirError::InvalidParameters)
    );
    assert_eq!(
        split_with_coefficients(&[1, 2], 3, 2, &[vec![5], vec![]]),
        Err(ShamirError::InvalidParameters)
    );
}

#[test]
fn split_with_coefficients_rejects_invalid_parameters() {
    assert_eq!(
        split_with_coefficients(&[1], 2, 3, &[vec![5, 6]]),
        Err(ShamirError::InvalidParameters)
    );
    assert_eq!(
        split_with_coefficients(&[], 3, 2, &[]),
        Err(ShamirError::InvalidParameters)
    );
    assert_eq!(
        split_with_coefficients(&[1], 3, 0, &[vec![]]),
        Err(ShamirError::InvalidParameters)
    );
    assert_eq!(
        split_with_coefficients(&[1], 256, 2, &[vec![9]]),
        Err(ShamirError::InvalidParameters)
    );
}

#[test]
fn split_rejects_threshold_above_share_amount() {
    assert_eq!(split(b"AB", 3, 4), Err(ShamirError::InvalidParameters));
    assert_eq!(split(b"AB", 0, 1), Err(ShamirError::InvalidParameters));
    assert_eq!(split(b"AB", 254, 255), Err(ShamirError::InvalidParameters));
}

#[test]
fn split_rejects_threshold_zero() {
    assert_eq!(split(b"AB", 3, 0), Err(ShamirError::InvalidParameters));
    assert_eq!(split(b"AB", 0, 0), Err(ShamirError::InvalidParameters));
}

#[test]
fn split_rejects_more_than_255_shares() {
    assert_eq!(split(b"AB", 256, 2), Err(ShamirError::InvalidParameters));
    assert_eq!(split(b"AB", 1000, 1000), Err(ShamirError::InvalidParameters));
}

#[test]
fn split_rejects_empty_secret() {
    assert_eq!(split(b"", 3, 2), Err(ShamirError::InvalidParameters));
}

#[test]
fn split_accepts_the_limits() {
    assert_eq!(split(b"x", 255, 255).unwrap().len(), 255);
    assert_eq!(split(b"x", 255, 1).unwrap().len(), 255);
    assert_eq!(split(b"x", 1, 1).unwrap(), vec![vec![1, b'x']]);
}

#[test]
fn split_gives_well_formed_shares() {
    let secret = b"correct horse battery staple";
    let shares = split(secret, 9, 4).unwrap();
    assert_eq!(shares.len(), 9);
    assert_eq!(validate_shares(&shares), Ok(()));
    for (k, share) in shares.iter().enumerate() {
        assert_eq!(share.len(), secret.len() + 1);
        assert_eq!(share[0] as usize, k + 1);
    }
}

#[test]
fn split_shares_differ_from_the_secret() {
    let secret = b"correct horse battery staple";
    let shares = split(secret, 5, 3).unwrap();
    for share in &shares {
        assert_ne!(&share[1..], &secret[..]);
    }
}

#[test]
fn two_of_five_with_threshold_three_scenario() {
    let secret = [0x41u8, 0x42];
    let shares = split(&secret, 5, 3).unwrap();
    assert_eq!(shares.len(), 5);
    for i in 0..5 {
        assert_eq!(shares[i].len(), 3);
        assert_ne!(shares[i][0], 0);
        for j in 0..i {
            assert_ne!(shares[i][0], shares[j][0]);
        }
    }
    let triples = subsets(5, 3);
    assert_eq!(triples.len(), 10);
    for positions in triples {
        assert_eq!(reconstruct(&pick(&shares, &positions)), secret.to_vec());
    }
}

#[test]
fn two_shares_do_not_reconstruct_with_threshold_three() {
    let secret = [0x41u8, 0x42];
    let shares =
        split_with_coefficients(&secret, 5, 3, &[vec![0x11, 0x22], vec![0x33, 0x44]]).unwrap();
    for positions in subsets(5, 3) {
        assert_eq!(reconstruct(&pick(&shares, &positions)), secret.to_vec());
    }
    let pairs = subsets(5, 2);
    assert_eq!(pairs.len(), 10);
    for positions in pairs {
        assert_ne!(reconstruct(&pick(&shares, &positions)), secret.to_vec());
    }
    assert_eq!(reconstruct(&pick(&shares, &[0, 1])), vec![5, 202]);
    assert_eq!(reconstruct(&pick(&shares, &[3, 4])), vec![211, 123]);
}

#[test]
fn round_trip_for_every_threshold_subset() {
    let mut state = 1u64;
    let secret = b"attack at dawn".to_vec();
    for n in 1..=7usize {
        for t in 1..=n {
            let rows = coefficients(&mut state, secret.len(), t);
            let shares = split_with_coefficients(&secret, n, t, &rows).unwrap();
            for positions in subsets(n, t) {
                assert_eq!(reconstruct(&pick(&shares, &positions)), secret);
            }
        }
    }
}

#[test]
fn round_trip_with_more_shares_than_the_threshold() {
    let mut state = 2u64;
    let secret = vec![0u8, 255, 1, 128, 77];
    let rows = coefficients(&mut state, secret.len(), 3);
    let shares = split_with_coefficients(&secret, 8, 3, &rows).unwrap();
    for size in 3..=8usize {
        for positions in subsets(8, size) {
            assert_eq!(reconstruct(&pick(&shares, &positions)), secret);
        }
    }
}

#[test]
fn round_trip_does_not_depend_on_share_order() {
    let mut state = 3u64;
    let secret = b"order".to_vec();
    let rows = coefficients(&mut state, secret.len(), 4);
    let shares = split_with_coefficients(&secret, 6, 4, &rows).unwrap();
    assert_eq!(reconstruct(&pick(&shares, &[5, 0, 3, 1])), secret);
    assert_eq!(reconstruct(&pick(&shares, &[2, 4, 1, 5])), secret);
}

#[test]
fn round_trip_with_255_shares() {
    let mut state = 4u64;
    let secret = b"all of them".to_vec();
    let rows = coefficients(&mut state, secret.len(), 255);
    let shares = split_with_coefficients(&secret, 255, 255, &rows).unwrap();
    assert_eq!(reconstruct(&shares), secret);
}

#[test]
fn round_trip_with_random_coefficients() {
    let secret: Vec<u8> = (0..=255u8).collect();
    for (n, t) in [(1usize, 1usize), (2, 1), (2, 2), (5, 3), (10, 10), (40, 7), (255, 20)] {
        let shares = split(&secret, n, t).unwrap();
        assert_eq!(reconstruct(&shares[..t]), secret);
        assert_eq!(reconstruct(&shares[n - t..]), secret);
        assert_eq!(reconstruct(&shares), secret);
    }
}

#[test]
fn every_threshold_subset_reconstructs_the_same_bytes() {
    let shares = split(b"one and the same", 6, 3).unwrap();
    let first = reconstruct(&shares[..3]);
    for positions in subsets(6, 3) {
        assert_eq!(reconstruct(&pick(&shares, &positions)), first);
    }
}

#[test]
fn too_few_shares_rarely_reconstruct() {
    let mut state = 5u64;
    let trials = 2000usize;
    let mut hits = 0usize;
    for _ in 0..trials {
        let secret = vec![next(&mut state)];
        let rows = coefficients(&mut state, 1, 3);
        let shares = split_with_coefficients(&secret, 3, 3, &rows).unwrap();
        if reconstruct(&shares[..2]) == secret {
            hits += 1;
        }
    }
    assert!(hits < 40);
}

#[test]
fn one_share_reconstructs_to_its_payload() {
    assert_eq!(reconstruct(&[vec![9, 1, 2, 3]]), vec![1, 2, 3]);
    assert_eq!(reconstruct(&[vec![200]]), Vec::<u8>::new());
}

#[test]
fn reconstruct_agrees_with_gf256() {
    let mut state = 6u64;
    let secret = b"both ways".to_vec();
    let rows = coefficients(&mut state, secret.len(), 4);
    let shares = split_with_coefficients(&secret, 7, 4, &rows).unwrap();
    for size in 1..=7usize {
        for positions in subsets(7, size) {
            let chosen = pick(&shares, &positions);
            assert_eq!(reconstruct(&chosen), gf256::shamir::shamir::reconstruct(&chosen));
        }
    }
}

#[test]
fn reconstruct_recovers_what_gf256_generates() {
    let secret = b"secret secret secret!".to_vec();
    let shares = gf256::shamir::shamir::generate(&secret, 5, 4);
    assert_eq!(validate_shares(&shares), Ok(()));
    assert_eq!(reconstruct(&shares[..4]), secret);
    assert_eq!(reconstruct(&shares[1..]), secret);
}

#[test]
fn validate_shares_accepts_proper_shares() {
    assert_eq!(validate_shares(&[vec![1, 5], vec![2, 6], vec![255, 7]]), Ok(()));
    assert_eq!(validate_shares(&[vec![3, 5]]), Ok(()));
    assert_eq!(validate_shares(&[vec![3], vec![4]]), Ok(()));
}

#[test]
fn validate_shares_rejects_no_shares() {
    assert_eq!(validate_shares(&[]), Err(ShamirError::MalformedShare));
}

#[test]
fn validate_shares_rejects_empty_share() {
    assert_eq!(validate_shares(&[vec![]]), Err(ShamirError::MalformedShare));
    assert_eq!(validate_shares(&[vec![], vec![]]), Err(ShamirError::MalformedShare));
}

#[test]
fn validate_shares_rejects_zero_index() {
    assert_eq!(
        validate_shares(&[vec![1, 5], vec![0, 6]]),
        Err(ShamirError::MalformedShare)
    );
    assert_eq!(validate_shares(&[vec![0, 5]]), Err(ShamirError::MalformedShare));
}

#[test]
fn validate_shares_rejects_duplicate_index() {
    assert_eq!(
        validate_shares(&[vec![1, 5], vec![2, 6], vec![1, 7]]),
        Err(ShamirError::MalformedShare)
    );
    assert_eq!(
        validate_shares(&[vec![4, 5], vec![4, 5]]),
        Err(ShamirError::MalformedShare)
    );
}

#[test]
fn validate_shares_rejects_mismatched_lengths() {
    assert_eq!(
        validate_shares(&[vec![1, 5, 9], vec![2, 6]]),
        Err(ShamirError::MalformedShare)
    );
    assert_eq!(
        validate_shares(&[vec![1, 5], vec![2, 6], vec![3, 6, 7]]),
        Err(ShamirError::MalformedShare)
    );
}

#[test]
fn fewer_shares_fit_another_secret() {
    let shown = split_with_coefficients(&[0x41], 5, 3, &[vec![0x11, 0x22]]).unwrap();
    let mut fitting = 0usize;
    for c1 in 0..=255u8 {
        for c2 in 0..=255u8 {
            let other = split_with_coefficients(&[0x5a], 5, 3, &[vec![c1, c2]]).unwrap();
            if other[1] == shown[1] && other[3] == shown[3] {
                fitting += 1;
                assert_ne!(other[0], shown[0]);
                assert_ne!(other[2], shown[2]);
                assert_ne!(other[4], shown[4]);
            }
        }
    }
    assert_eq!(fitting, 1);
}

#[test]
fn one_share_of_three_fits_each_secret_equally_often() {
    let shown = split_with_coefficients(&[0x41], 5, 3, &[vec![0x11, 0x22]]).unwrap();
    for other in [0x00u8, 0x41, 0x5a, 0xff] {
        let mut fitting = 0usize;
        for c1 in 0..=255u8 {
            for c2 in 0..=255u8 {
                let shares = split_with_coefficients(&[other], 5, 3, &[vec![c1, c2]]).unwrap();
                if shares[2] == shown[2] {
                    fitting += 1;
                }
            }
        }
        assert_eq!(fitting, 256);
    }
}

#[test]
fn split_draws_from_all_field_elements() {
    let mut seen = [false; 256];
    for _ in 0..10000 {
        let shares = split(&[0], 2, 2).unwrap();
        seen[shares[0][1] as usize] = true;
    }
    for value in 0..256usize {
        assert!(seen[value]);
    }
}

#[test]
fn split_draws_each_byte_on_its_own() {
    let secret = vec![0u8; 64];
    let shares = split(&secret, 2, 2).unwrap();
    let first = shares[0][1];
    assert!(shares[0][1..].iter().any(|y| *y != first));
    assert_ne!(split(&secret, 2, 2).unwrap(), shares);
}
