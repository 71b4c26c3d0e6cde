use shamir::field;
use shamir::lagrange;
use shamir::sss;
use shamir::sss::ShamirError;
use shamir::vss;

fn demo_params() -> vss::VssParams {
    vss::VssParams::new(2003, 4007, 2).expect("the demonstration parameters should validate")
}

#[test]
fn mod_pow_exact_values() {
    assert_eq!(field::mod_pow(2, 10, 1000), 24); // 1024 mod 1000
    assert_eq!(field::mod_pow(5, 0, 7), 1);
    assert_eq!(field::mod_pow(0, 5, 7), 0);
    assert_eq!(field::mod_pow(3, 4, 1), 0); // degenerate modulus
    assert_eq!(field::mod_pow(7, 1, 100), 7);
}

#[test]
fn mod_inverse_exact_values() {
    assert_eq!(field::mod_inverse(3, 7), Ok(5)); // 3 * 5 = 15 = 1 mod 7
    assert_eq!(field::mod_inverse(1, 2), Ok(1));
    assert_eq!(field::mod_inverse(10, 7), Ok(5)); // reduces to 3 mod 7
}

#[test]
fn mod_inverse_rejects_shared_factor() {
    assert_eq!(field::mod_inverse(6, 9), Err(ShamirError::NoInverseExists));
    assert_eq!(field::mod_inverse(4, 8), Err(ShamirError::NoInverseExists));
    assert_eq!(field::mod_inverse(0, 5), Err(ShamirError::NoInverseExists));
}

#[test]
fn lagrange_basis_exact_values() {
    // Points x = [1, 2], interpolating at 0:
    // basis 0 = (0-2)/(1-2) = 2, basis 1 = (0-1)/(2-1) = -1 = 2002 mod 2003.
    let xs = vec![1, 2];
    assert_eq!(lagrange::lagrange_basis(0, &xs, 0, 2003), Ok(2));
    assert_eq!(lagrange::lagrange_basis(0, &xs, 1, 2003), Ok(2002));
}

#[test]
fn generate_polynomial_rejects_low_threshold() {
    assert_eq!(sss::generate_polynomial(42, 0), Err(ShamirError::InvalidThreshold));
    assert_eq!(sss::generate_polynomial(42, 1), Err(ShamirError::InvalidThreshold));
    let params = demo_params();
    assert_eq!(vss::generate_polynomial(42, 1, &params), Err(ShamirError::InvalidThreshold));
}

#[test]
fn generate_polynomial_coefficients_in_range() {
    // The higher coefficients come from the randomness source; the
    // contract puts each of them in [1, PRIME).
    let poly = sss::generate_polynomial(77, 6).expect("sharing should succeed");
    assert_eq!(poly[0], 77);
    for &c in poly.iter().skip(1) {
        assert!(c >= 1 && c < sss::PRIME);
    }
    let params = demo_params();
    let poly = vss::generate_polynomial(77, 6, &params).expect("sharing should succeed");
    assert_eq!(poly[0], 77);
    for &c in poly.iter() {
        assert!(c < params.q);
    }
}

#[test]
fn generate_shares_rejects_low_share_count() {
    assert_eq!(sss::generate_shares(42, 3, 2), Err(ShamirError::InvalidShareCount));
    // The share-count check comes first, then the threshold check.
    assert_eq!(sss::generate_shares(42, 1, 0), Err(ShamirError::InvalidShareCount));
    assert_eq!(sss::generate_shares(42, 1, 5), Err(ShamirError::InvalidThreshold));
}

#[test]
fn reconstruct_rejects_insufficient_shares() {
    let shares = sss::generate_shares(5555, 3, 5).expect("sharing should succeed");
    assert_eq!(
        sss::reconstruct_secret(&shares[..2], 3),
        Err(ShamirError::InsufficientShares)
    );
    let params = demo_params();
    let coeffs = vss::generate_polynomial(321, 3, &params).expect("sharing should succeed");
    let vshares = vss::generate_shares(&coeffs, 5, &params);
    assert_eq!(
        vss::reconstruct_secret(&vshares[..2], 3, &params),
        Err(ShamirError::InsufficientShares)
    );
}

#[test]
fn reconstruct_rejects_duplicate_x() {
    let shares = sss::generate_shares(1000, 3, 5).expect("sharing should succeed");
    let duplicated = vec![shares[0], shares[0], shares[2]];
    assert_eq!(
        sss::reconstruct_secret(&duplicated, 3),
        Err(ShamirError::NoInverseExists)
    );
}

#[test]
fn round_trip_all_three_of_five_subsets() {
    let secret = 7777;
    let threshold = 3;
    let shares = sss::generate_shares(secret, threshold, 5).expect("sharing should succeed");
    for a in 0..5 {
        for b in (a + 1)..5 {
            for c in (b + 1)..5 {
                let subset = vec![shares[a], shares[b], shares[c]];
                let recovered = sss::reconstruct_secret(&subset, threshold)
                    .expect("reconstruction should succeed");
                assert_eq!(recovered, secret, "subset ({}, {}, {}) failed", a, b, c);
            }
        }
    }
}

#[test]
fn round_trip_edge_secrets() {
    // The smallest and largest field elements survive the round trip.
    for secret in [0, 1, sss::PRIME - 1] {
        let shares = sss::generate_shares(secret, 2, 2).expect("sharing should succeed");
        let recovered =
            sss::reconstruct_secret(&shares, 2).expect("reconstruction should succeed");
        assert_eq!(recovered, secret);
    }
}

#[test]
fn subset_invariance_vss_combinations() {
    let secret = 1234;
    let params = demo_params();
    let coeffs = vss::generate_polynomial(secret, 3, &params).expect("sharing should succeed");
    let shares = vss::generate_shares(&coeffs, 5, &params);
    let combos = [[0, 1, 2], [2, 3, 4], [0, 2, 4]];
    let mut results = Vec::new();
    for combo in combos.iter() {
        let selected: Vec<(u64, u64)> = combo.iter().map(|&i| shares[i]).collect();
        results.push(
            vss::reconstruct_secret(&selected, 3, &params).expect("reconstruction should succeed"),
        );
    }
    assert_eq!(results[0], results[1]);
    assert_eq!(results[1], results[2]);
    assert_eq!(results[0], secret);
}

#[test]
fn vss_shares_are_polynomial_values() {
    // f(x) = 5 + 2x + 3x² over the demonstration field.
    let params = demo_params();
    let coeffs = vec![5, 2, 3];
    let shares = vss::generate_shares(&coeffs, 3, &params);
    assert_eq!(shares, vec![(1, 10), (2, 21), (3, 38)]);
}

#[test]
fn tampered_share_fails_verification() {
    let secret = 1234;
    let params = demo_params();
    let coeffs = vss::generate_polynomial(secret, 3, &params).expect("sharing should succeed");
    let shares = vss::generate_shares(&coeffs, 5, &params);
    let commitments = vss::generate_commitments(&coeffs, &params);
    for &(x, y) in shares.iter() {
        let tampered = (x, (y + 1) % params.q);
        assert!(
            !vss::verify_share(tampered, &commitments, &params),
            "tampered share ({}, {}) passed verification",
            x,
            y
        );
    }
}

#[test]
fn commitments_are_generator_powers() {
    let params = demo_params();
    let coeffs = vec![0, 1, 2];
    let commitments = vss::generate_commitments(&coeffs, &params);
    assert_eq!(commitments, vec![1, 2, 4]); // g^0, g^1, g^2 with g = 2
}

#[test]
fn params_validation() {
    // 4 is composite.
    assert!(vss::VssParams::new(4, 4007, 2).is_none());
    // The generator must be a nontrivial group element below p.
    assert!(vss::VssParams::new(2003, 4007, 1).is_none());
    assert!(vss::VssParams::new(2003, 4007, 4007).is_none());
    // p - 1 has order 2, which does not divide the odd prime 2003.
    assert!(vss::VssParams::new(2003, 4007, 4006).is_none());
    // The demonstration set itself is accepted.
    let params = demo_params();
    assert_eq!((params.q, params.p, params.g), (2003, 4007, 2));
}
