use shamir::vss;

fn demo_params() -> vss::VssParams {
    vss::VssParams::new(2003, 4007, 2).expect("the demonstration parameters should validate")
}

#[test]
fn test_verify_shares() {
    let secret = 1234;
    let params = demo_params();
    let coeffs = vss::generate_polynomial(secret, vss::THRESHOLD, &params)
        .expect("Failed to generate polynomial");
    let shares = vss::generate_shares(&coeffs, vss::SHARES_COUNT, &params);
    let commitments = vss::generate_commitments(&coeffs, &params);
    for share in shares {
        assert!(
            vss::verify_share(share, &commitments, &params),
            "Share {:?} failed verification",
            share
        );
    }
}

#[test]
fn vss_test_test_reconstruct_secret() {
    let secret = 1234;
    let params = demo_params();
    let coeffs = vss::generate_polynomial(secret, vss::THRESHOLD, &params)
        .expect("Failed to generate polynomial");
    let shares = vss::generate_shares(&coeffs, vss::SHARES_COUNT, &params);
    let recovered = vss::reconstruct_secret(&shares[0..vss::THRESHOLD], vss::THRESHOLD, &params)
        .expect("Failed to reconstruct secret");
    assert_eq!(recovered, secret, "Reconstructed secret did not match original");
}
