use shamir_gf256::field::{field_add, field_div, field_inv, field_mul};
use shamir_gf256::polynomial::Polynomial;
use shamir_gf256::{combine, split, split_with_randomness, ShamirError};

#[test]
fn it_splits_secret() {
    let secret = "test_secret";
    let threshold = 3;
    let parts = 5;

    let shares = split(secret, parts, threshold).expect("split failed");
    assert_eq!(shares.len(), parts);

    for share in shares.iter() {
        assert_eq!(share.len(), secret.len() + 1);
    }
}

#[test]
fn it_fails_when_split_parts_less_than_thresshold() {
    let secret = "test_secret";
    let threshold = 3;
    let parts = 2;

    assert!(split(secret, parts, threshold,).is_err());
}

#[test]
fn it_combines_from_random_shares() {
    let secret = [1, 2, 3];
    let threshold = 3;
    let parts = 5;

    let shares = split(&secret, parts, threshold).expect("split failed");
    let selected_shares = &shares[..threshold];

    let reconstructed = combine(selected_shares).expect("combine failed");
    assert_eq!(reconstructed, secret);
}

#[test]
fn it_combines_from_known_shares() {
    let secret = b"test_secret";
    let shares = vec![
        vec![137, 206, 171, 244, 28, 176, 109, 4, 12, 168, 87, 50],
        vec![162, 176, 148, 45, 83, 38, 153, 204, 80, 141, 4, 1],
        vec![35, 165, 19, 114, 53, 31, 70, 25, 74, 248, 145, 132],
    ];

    let reconstructed = combine(shares).expect("combine failed");
    assert_eq!(reconstructed, secret);
}

#[test]
fn it_fails_to_combine_invalid_shares_input() {
    let shares = vec![vec![1, 2], vec![3, 4, 3]];
    assert!(combine(shares).is_err());

    let shares = vec![vec![1, 2]];
    assert!(combine(shares).is_err());
}

#[test]
fn it_fails_to_combine_duplicate_shares() {
    let shares = vec![
        vec![35, 165, 19, 114, 53, 31, 70, 25, 74, 248, 145, 132],
        vec![137, 206, 171, 244, 28, 176, 109, 4, 12, 168, 87, 50],
        vec![137, 206, 171, 244, 28, 176, 109, 4, 12, 168, 87, 50],
    ];

    assert!(combine(shares).is_err());
}

#[test]
fn split_then_combine_text_with_first_three() {
    let shares = split("test_secret", 5, 3).expect("split failed");
    assert_eq!(shares.len(), 5);
    for share in shares.iter() {
        assert_eq!(share.len(), 12);
    }
    let secret = combine(&shares[..3]).expect("combine failed");
    assert_eq!(secret, b"test_secret".to_vec());
}

#[test]
fn known_shares_give_the_bytes_of_the_text() {
    let shares = vec![
        vec![137, 206, 171, 244, 28, 176, 109, 4, 12, 168, 87, 50],
        vec![162, 176, 148, 45, 83, 38, 153, 204, 80, 141, 4, 1],
        vec![35, 165, 19, 114, 53, 31, 70, 25, 74, 248, 145, 132],
    ];
    let secret = combine(&shares).expect("combine failed");
    assert_eq!(secret, vec![116, 101, 115, 116, 95, 115, 101, 99, 114, 101, 116]);
}

#[test]
fn split_rejects_invalid_parameters() {
    assert_eq!(split(&b"x".to_vec(), 2, 3), Err(ShamirError::InvalidParameters));
    assert_eq!(split(&Vec::new(), 3, 2), Err(ShamirError::InvalidParameters));
    assert_eq!(split("abc", 3, 1), Err(ShamirError::InvalidParameters));
    assert_eq!(split("abc", 256, 3), Err(ShamirError::InvalidParameters));
    assert_eq!(split("abc", 256, 256), Err(ShamirError::InvalidParameters));
}

#[test]
fn combine_reports_insufficient_shares() {
    assert_eq!(combine(vec![vec![1u8, 2]]), Err(ShamirError::InsufficientShares));
    assert_eq!(combine(Vec::<Vec<u8>>::new()), Err(ShamirError::InsufficientShares));
}

#[test]
fn combine_reports_inconsistent_lengths() {
    assert_eq!(
        combine(vec![vec![1u8, 2], vec![3, 4, 3]]),
        Err(ShamirError::InconsistentShareLength)
    );
    assert_eq!(
        combine(vec![vec![1u8, 2, 5], vec![3, 4, 3], vec![3, 4]]),
        Err(ShamirError::InconsistentShareLength)
    );
}

#[test]
fn combine_reports_duplicate_x() {
    let shares = vec![
        vec![35, 165, 19, 114, 53, 31, 70, 25, 74, 248, 145, 132],
        vec![137, 206, 171, 244, 28, 176, 109, 4, 12, 168, 87, 50],
        vec![1, 2, 3, 4, 5, 6, 7, 8, 9, 10, 11, 50],
    ];
    assert_eq!(combine(shares), Err(ShamirError::DuplicateShare));
}

#[test]
fn combine_reports_malformed_shares() {
    assert_eq!(combine(vec![vec![1u8], vec![2]]), Err(ShamirError::MalformedShare));
    assert_eq!(combine(vec![vec![1u8, 0], vec![2, 3]]), Err(ShamirError::MalformedShare));
}

#[test]
fn split_output_has_distinct_nonzero_x() {
    let shares = split("abc", 255, 2).expect("split failed");
    assert_eq!(shares.len(), 255);
    let mut seen = [false; 256];
    for share in shares.iter() {
        assert_eq!(share.len(), 4);
        let x = share[3] as usize;
        assert_ne!(x, 0);
        assert!(!seen[x]);
        seen[x] = true;
    }
}

#[test]
fn round_trip_with_every_subset_size() {
    let secret = b"round trip".to_vec();
    let shares = split(&secret, 7, 4).expect("split failed");
    for m in 4..=7 {
        assert_eq!(combine(&shares[7 - m..]).expect("combine failed"), secret);
    }
    let picked = vec![shares[6].clone(), shares[0].clone(), shares[3].clone(), shares[2].clone()];
    assert_eq!(combine(picked).expect("combine failed"), secret);
}

#[test]
fn round_trip_with_fixed_randomness() {
    let secret = [7u8, 200];
    let xs = [3u8, 9, 1, 250];
    let coefficients = vec![vec![11u8, 0], vec![255, 42]];
    let shares = split_with_randomness(&secret, 4, 3, &xs, &coefficients);
    assert_eq!(shares.len(), 4);
    for (i, share) in shares.iter().enumerate() {
        assert_eq!(share[2], xs[i]);
    }
    // At x = 1 each byte's polynomial is the sum of its coefficients.
    assert_eq!(shares[2], vec![7 ^ 11 ^ 0, 200 ^ 255 ^ 42, 1]);
    assert_eq!(combine(&shares[1..]).expect("combine failed"), secret.to_vec());
    assert_eq!(combine(&shares[..3]).expect("combine failed"), secret.to_vec());
}

#[test]
fn field_arithmetic_exact_values() {
    assert_eq!(field_add(0x57, 0x83), 0xd4);
    assert_eq!(field_mul(0x57, 0x83), 0xc1);
    assert_eq!(field_mul(0x57, 0x13), 0xfe);
    assert_eq!(field_mul(0x02, 0x80), 0x1b);
    assert_eq!(field_inv(0x53), 0xca);
    assert_eq!(field_inv(1), 1);
    assert_eq!(field_div(0xc1, 0x83), 0x57);
}

#[test]
fn field_laws_on_all_small_triples() {
    for a in 0..=255u8 {
        assert_eq!(field_mul(a, 1), a);
        assert_eq!(field_mul(a, 0), 0);
        if a != 0 {
            assert_eq!(field_mul(a, field_inv(a)), 1);
        }
        for b in [0u8, 1, 2, 3, 0x53, 0x80, 0xca, 0xff] {
            assert_eq!(field_mul(a, b), field_mul(b, a));
            assert_eq!(field_add(a, b), field_add(b, a));
            for c in [0u8, 7, 0x1b, 0x8e, 0xfe] {
                assert_eq!(field_mul(field_mul(a, b), c), field_mul(a, field_mul(b, c)));
                assert_eq!(
                    field_mul(a, field_add(b, c)),
                    field_add(field_mul(a, b), field_mul(a, c))
                );
                assert_eq!(field_add(field_add(a, b), c), field_add(a, field_add(b, c)));
            }
        }
    }
}

#[test]
fn polynomial_evaluation_and_interpolation() {
    let p = Polynomial::new(vec![5, 3, 0x80]);
    assert_eq!(p.evaluate(0), 5);
    assert_eq!(p.evaluate(1), 5 ^ 3 ^ 0x80);
    // 5 + 3*2 + 0x80*4 = 5 ^ 6 ^ field_mul(0x80, 4)
    assert_eq!(p.evaluate(2), 5 ^ 6 ^ field_mul(0x80, 4));
    let xs = vec![1u8, 2, 3, 200];
    let ys: Vec<u8> = xs.iter().map(|&x| p.evaluate(x)).collect();
    for target in [0u8, 4, 77, 255] {
        assert_eq!(Polynomial::interpolate(&xs, &ys, target), p.evaluate(target));
    }
}

#[test]
fn fewer_shares_than_threshold_give_no_error() {
    let shares = split("abc", 5, 4).expect("split failed");
    let partial = combine(&shares[..2]).expect("combine failed");
    assert_eq!(partial.len(), 3);
}

#[test]
fn shares_below_threshold_look_uniform() {
    // Chi-square over the first y byte of one share, for a fixed secret.
    let trials = 25600;
    let mut counts = [0usize; 256];
    for _ in 0..trials {
        let shares = split(&[42u8], 3, 2).expect("split failed");
        counts[shares[0][0] as usize] += 1;
    }
    let expected = trials as f64 / 256.0;
    let chi: f64 = counts.iter().map(|&c| (c as f64 - expected).powi(2) / expected).sum();
    // 255 degrees of freedom: the 0.9999 quantile is about 340.
    assert!(chi < 360.0, "chi-square {}", chi);
}

#[test]
fn x_coordinates_are_shuffled() {
    // Unshuffled, the x-coordinates would always be 1, 2, 3 in that order.
    let mut orders = Vec::new();
    for _ in 0..20 {
        let shares = split("k", 3, 2).expect("split failed");
        orders.push((shares[0][1], shares[1][1], shares[2][1]));
    }
    assert!(orders.iter().any(|&o| o != (1, 2, 3)));
}

#[test]
fn coefficients_are_random() {
    // With zero coefficients every y byte would equal the secret byte.
    let secret = b"abc";
    let shares = split(&secret.to_vec(), 5, 3).expect("split failed");
    let mut differs = false;
    for share in shares.iter() {
        for s in 0..3 {
            if share[s] != secret[s] {
                differs = true;
            }
        }
    }
    assert!(differs);
}

#[test]
fn split_accepts_owned_and_borrowed_text() {
    let text = String::from("hello");
    let shares = split(&text, 4, 2).expect("split failed");
    assert_eq!(combine(&shares[2..]).expect("combine failed"), b"hello".to_vec());
    let shares = split(text, 3, 3).expect("split failed");
    assert_eq!(combine(shares).expect("combine failed"), b"hello".to_vec());
    let bytes: &[u8] = &[9, 8, 7];
    let shares = split(bytes, 2, 2).expect("split failed");
    assert_eq!(combine(&shares).expect("combine failed"), vec![9, 8, 7]);
}

#[test]
fn combine_accepts_an_array_of_shares() {
    let shares = split("array", 3, 2).expect("split failed");
    let picked = [shares[2].clone(), shares[0].clone()];
    assert_eq!(combine(picked).expect("combine failed"), b"array".to_vec());
}

#[test]
fn duplicate_x_is_reported_before_zero_x() {
    let shares = vec![vec![1u8, 5], vec![2, 5], vec![3, 0]];
    assert_eq!(combine(shares), Err(ShamirError::DuplicateShare));
    let shares = vec![vec![1u8, 0], vec![2, 0]];
    assert_eq!(combine(shares), Err(ShamirError::DuplicateShare));
}

#[test]
fn any_short_share_is_malformed() {
    assert_eq!(combine(vec![vec![1u8, 2], vec![3]]), Err(ShamirError::MalformedShare));
    assert_eq!(combine(vec![vec![1u8, 2, 3], vec![4, 5, 6], vec![]]), Err(ShamirError::MalformedShare));
}

#[test]
fn share_order_does_not_matter() {
    let shares = vec![
        vec![137, 206, 171, 244, 28, 176, 109, 4, 12, 168, 87, 50],
        vec![162, 176, 148, 45, 83, 38, 153, 204, 80, 141, 4, 1],
        vec![35, 165, 19, 114, 53, 31, 70, 25, 74, 248, 145, 132],
    ];
    let reversed = vec![shares[2].clone(), shares[1].clone(), shares[0].clone()];
    assert_eq!(combine(&shares), combine(&reversed));
    assert_eq!(combine(reversed).expect("combine failed"), b"test_secret".to_vec());
}

#[test]
fn empty_markers_are_rejected_secrets() {
    assert_eq!(split(std::marker::PhantomPinned, 3, 2), Err(ShamirError::InvalidParameters));
    assert_eq!(
        split(std::marker::PhantomData::<u8>, 3, 2),
        Err(ShamirError::InvalidParameters)
    );
}
