use jolt_core::batched_sumcheck::{batched_messages, batched_round_plan, carried_claims, evaluate, InstanceRound};
use jolt_core::field::Fr;
use jolt_core::opening_reduction::{
    opening_point_from_sumcheck, reduce_and_verify_rounds, rlc_coefficients, verifier_joint_claim,
    TrustedAdviceShape,
};
use jolt_core::packed_opening::ProofVerifyError;
use jolt_core::rlc_polynomial::one_hot_address_major_product;

fn frs(values: &[u64]) -> Vec<Fr> {
    values.iter().map(|v| Fr::from_u64(*v)).collect()
}

fn neg(v: u64) -> Fr {
    Fr::zero().minus(&Fr::from_u64(v))
}

#[test]
fn round_plan_front_loads_short_instances() {
    assert_eq!(
        batched_round_plan(3, &[3, 1, 2], 0),
        vec![InstanceRound::Message { local_round: 0 }, InstanceRound::Constant { scale_exp: 1 }, InstanceRound::Constant { scale_exp: 0 }]
    );
    assert_eq!(
        batched_round_plan(3, &[3, 1, 2], 1),
        vec![InstanceRound::Message { local_round: 1 }, InstanceRound::Constant { scale_exp: 0 }, InstanceRound::Message { local_round: 0 }]
    );
    assert_eq!(
        batched_round_plan(3, &[3, 1, 2], 2),
        vec![InstanceRound::Message { local_round: 2 }, InstanceRound::Message { local_round: 0 }, InstanceRound::Message { local_round: 1 }]
    );
}

/// Instance A: two rounds, input claim 7 = p(0) + p(1) for p = 1 + 2x + 3x^2, and
/// p(2) = 17 = q(0) + q(1) for q = 6 + 5x. Instance B: one round, input claim 5 = m(0) +
/// m(1) for m = 1 + 3x.
fn consistent_batch() -> (Vec<Vec<Vec<Fr>>>, Vec<Fr>, Vec<Fr>) {
    let msgs = vec![vec![frs(&[1, 2, 3]), frs(&[6, 5])], vec![frs(&[1, 3])]];
    (msgs, frs(&[7, 5]), frs(&[10, 100]))
}

#[test]
fn batched_rounds_chain_their_claims() {
    let (msgs, claims, coeffs) = consistent_batch();
    let h = batched_messages(&msgs, &coeffs, &claims);
    // Round 0: B contributes its claim as a constant.
    assert_eq!(h, vec![frs(&[510, 20, 30]), frs(&[160, 350])]);
    let sum_at_0_and_1 = |p: &Vec<Fr>| evaluate(p, Fr::zero()).plus(&evaluate(p, Fr::one()));
    // 10 * 7 * 2^0 + 100 * 5 * 2^1
    assert_eq!(sum_at_0_and_1(&h[0]), Fr::from_u64(1070));
    assert_eq!(sum_at_0_and_1(&h[1]), evaluate(&h[0], Fr::from_u64(2)));
    assert_eq!(evaluate(&h[0], Fr::from_u64(2)), Fr::from_u64(670));
    let c = carried_claims(&msgs, &claims, &frs(&[2, 3]));
    assert_eq!(c, vec![frs(&[7, 10]), frs(&[17, 5]), frs(&[21, 10])]);
}

#[test]
fn rlc_coefficients_sum_gamma_powers_per_polynomial() {
    let ids = [5u64, 3, 5, 9, 3];
    let gammas = frs(&[1, 2, 4, 8, 16]);
    assert_eq!(
        rlc_coefficients(&ids, &gammas, None),
        vec![(3, Fr::from_u64(18)), (5, Fr::from_u64(5)), (9, Fr::from_u64(8))]
    );
    assert_eq!(
        rlc_coefficients(&ids, &gammas, Some(9)),
        vec![(3, Fr::from_u64(18)), (5, Fr::from_u64(5))]
    );
    assert_eq!(
        rlc_coefficients(&ids, &frs(&[1, 2]), None),
        vec![(3, Fr::from_u64(2)), (5, Fr::from_u64(1))]
    );
}

#[test]
fn opening_point_reverses_both_segments() {
    assert_eq!(opening_point_from_sumcheck(&frs(&[1, 2, 3, 4, 5]), 2), frs(&[3, 2, 1, 5, 4]));
    assert_eq!(opening_point_from_sumcheck(&frs(&[1, 2, 3]), 3), frs(&[3, 2, 1]));
}

#[test]
fn joint_claim_weights_short_openings() {
    let gammas = frs(&[1, 10]);
    let claims = frs(&[3, 4]);
    // Opening 1 has one variable of two: weight 1 - r_0 = -1.
    assert_eq!(verifier_joint_claim(&gammas, &claims, &[2, 1], &frs(&[2, 5]), None), neg(37));
    let ta = TrustedAdviceShape { index: 1, main_rows: 1, advice_rows: 1, advice_columns: 1 };
    assert_eq!(verifier_joint_claim(&gammas, &claims, &[2, 1], &frs(&[2, 5]), Some(ta)), Fr::from_u64(43));
}

#[test]
fn reduced_opening_from_the_batched_rounds() {
    // Compressed round polynomials of the batch above, [510, 20, 30] and [160, 350].
    let polys = vec![frs(&[510, 30]), frs(&[160])];
    let result = reduce_and_verify_rounds(
        &polys,
        &frs(&[7, 5]),
        &[2, 1],
        &frs(&[10, 100]),
        2,
        &frs(&[2, 3]),
        1,
        &frs(&[3, 4]),
        &frs(&[1, 10]),
        None,
    );
    assert_eq!(result, Ok((frs(&[2, 3]), neg(37))));
    let too_high = reduce_and_verify_rounds(
        &polys,
        &frs(&[7, 5]),
        &[2, 1],
        &frs(&[10, 100]),
        1,
        &frs(&[2, 3]),
        1,
        &frs(&[3, 4]),
        &frs(&[1, 10]),
        None,
    );
    assert_eq!(too_high, Err(ProofVerifyError::InvalidInputLength(1, 2)));
}

#[test]
fn one_hot_product_under_address_major_layout() {
    let nz = [Some(1u8), None, Some(0), Some(1)];
    let r = one_hot_address_major_product(&nz, &frs(&[5, 7]), Fr::from_u64(3), 4, 1, 2);
    assert_eq!(r, frs(&[0, 21, 30, 0]));
}

#[test]
fn prover_reduction_claims() {
    let (point, coeffs, joint) = jolt_core::opening_reduction::reduce_and_prove_claims(
        &frs(&[2, 3]),
        1,
        &[4, 1],
        &frs(&[1, 10]),
        &frs(&[3, 4]),
        &[2, 1],
        Some(1),
        None,
    );
    assert_eq!(point, frs(&[2, 3]));
    assert_eq!(coeffs, vec![(4, Fr::one())]);
    assert_eq!(joint, neg(37));
}
