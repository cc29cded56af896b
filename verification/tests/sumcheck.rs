use jolt_core::field::Fr;
use jolt_core::opening_reduction::joint_claim;
use jolt_core::packed_opening::ProofVerifyError;
use jolt_core::sumcheck::{batched_round_poly, eval_from_hint, mul_pow_2, verify_rounds};

fn frs(values: &[u64]) -> Vec<Fr> {
    values.iter().map(|v| Fr::from_u64(*v)).collect()
}

#[test]
fn hint_gives_the_linear_coefficient() {
    // p(x) = 1 + 2x + 3x^2, compressed [1, 3], p(0) + p(1) = 7.
    assert_eq!(eval_from_hint(&frs(&[1, 3]), Fr::from_u64(7), Fr::from_u64(5)), Fr::from_u64(86));
    // A constant-plus-linear polynomial 40 + 6x, compressed [40], hint 86.
    assert_eq!(eval_from_hint(&frs(&[40]), Fr::from_u64(86), Fr::from_u64(2)), Fr::from_u64(52));
}

#[test]
fn rounds_fold_the_claim() {
    let polys = vec![frs(&[1, 3]), frs(&[40])];
    let challenges = frs(&[5, 2]);
    assert_eq!(
        verify_rounds(&polys, Fr::from_u64(7), 2, &challenges),
        Ok((Fr::from_u64(52), challenges.clone()))
    );
    assert_eq!(
        verify_rounds(&polys, Fr::from_u64(7), 1, &challenges),
        Err(ProofVerifyError::InvalidInputLength(1, 2))
    );
    assert_eq!(verify_rounds(&Vec::new(), Fr::from_u64(7), 1, &[]), Ok((Fr::from_u64(7), Vec::new())));
}

#[test]
fn mul_pow_2_scales() {
    assert_eq!(mul_pow_2(Fr::from_u64(3), 4), Fr::from_u64(48));
    assert_eq!(mul_pow_2(Fr::from_u64(3), 0), Fr::from_u64(3));
}

#[test]
fn batched_round_is_front_loaded() {
    let polys = vec![frs(&[1, 2, 3]), frs(&[9, 9])];
    let coeffs = frs(&[10, 100]);
    let claims = frs(&[7, 5]);
    let rounds = [2usize, 1];
    // Round 0 of 2: the second instance has one round, so it contributes its claim,
    // scaled by 2^(2 - 1 - 1), as a constant.
    let h = batched_round_poly(&polys, &coeffs, &claims, &rounds, 2, 0);
    assert_eq!(h, frs(&[510, 20, 30]));
    // h(0) + h(1) = 10 * 7 + 100 * (2 * 5).
    let h0 = h[0];
    let h1 = h[0].plus(&h[1]).plus(&h[2]);
    assert_eq!(h0.plus(&h1), Fr::from_u64(1070));
    // Round 1: both instances are active.
    let h = batched_round_poly(&polys, &coeffs, &claims, &rounds, 2, 1);
    assert_eq!(h, frs(&[910, 920, 30]));
    // Only instances with a coefficient are batched.
    let h = batched_round_poly(&polys, &frs(&[10]), &claims, &rounds, 2, 1);
    assert_eq!(h, frs(&[10, 20, 30]));
}

#[test]
fn joint_claim_combines_with_gamma_powers() {
    assert_eq!(joint_claim(&frs(&[2, 3, 4]), Fr::from_u64(10)), Fr::from_u64(432));
    assert_eq!(joint_claim(&[], Fr::from_u64(10)), Fr::zero());
}
