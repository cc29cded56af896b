use jolt_core::field::Fr;
use jolt_core::partially_bound_sumcheck::PartiallyBoundSumcheck;

fn frs(values: &[u64]) -> Vec<Fr> {
    values.iter().map(|v| Fr::from_u64(*v)).collect()
}

#[test]
fn message_values_and_binding() {
    let remainder = vec![frs(&[1, 2, 3, 4]), frs(&[5, 6, 7, 8])];
    let mut sumcheck = PartiallyBoundSumcheck::new(remainder, 2, |v: &[Fr]| v[0].times(&v[1]));
    let claim = Fr::from_u64(70);
    let message = sumcheck.compute_message(claim);
    assert_eq!(message, frs(&[26, 44, 66]));
    sumcheck.ingest_challenge(Fr::from_u64(3));
    assert_eq!(sumcheck.polys, vec![frs(&[4, 6]), frs(&[8, 10])]);
    let message = sumcheck.compute_message(Fr::from_u64(4 * 8 + 6 * 10));
    assert_eq!(message[0].plus(&message[1]), Fr::from_u64(92));
    assert_eq!(message[1], Fr::from_u64(60));
    sumcheck.ingest_challenge(Fr::from_u64(2));
    assert_eq!(sumcheck.final_poly_claims(), frs(&[8, 12]));
}

#[test]
fn message_at_zero_enforces_previous_claim() {
    let remainder = vec![frs(&[1, 1])];
    let sumcheck = PartiallyBoundSumcheck::new(remainder, 1, |v: &[Fr]| v[0]);
    let message = sumcheck.compute_message(Fr::from_u64(5));
    assert_eq!(message, frs(&[4, 1]));
}

#[test]
fn final_claims_are_the_multilinear_extension() {
    let remainder = vec![frs(&[1, 2, 3, 4])];
    let mut sumcheck = PartiallyBoundSumcheck::new(remainder, 1, |v: &[Fr]| v[0]);
    let (r1, r2) = (Fr::from_u64(5), Fr::from_u64(7));
    sumcheck.ingest_challenge(r1);
    sumcheck.ingest_challenge(r2);
    let one = Fr::one();
    // Σ_x t[x] eq((r1, r2), x), r1 meeting the lowest bit of x.
    let t = frs(&[1, 2, 3, 4]);
    let expected = t[0].times(&one.minus(&r1)).times(&one.minus(&r2))
        .plus(&t[1].times(&r1).times(&one.minus(&r2)))
        .plus(&t[2].times(&one.minus(&r1)).times(&r2))
        .plus(&t[3].times(&r1).times(&r2));
    assert_eq!(expected, Fr::from_u64(20));
    assert_eq!(sumcheck.final_poly_claims(), vec![expected]);
}
