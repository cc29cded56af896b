use jolt_core::field::Fr;
use jolt_core::product_sumcheck::ProductSumcheckProver;
use jolt_core::stream::VecStream;

fn frs(values: &[u64]) -> Vec<Fr> {
    values.iter().map(|v| Fr::from_u64(*v)).collect()
}

fn p_vec() -> Vec<Fr> {
    frs(&[2, 3, 1, 4, 3, 5, 2, 1, 4, 3, 1, 2, 2, 4, 5, 6])
}

fn q_vec() -> Vec<Fr> {
    frs(&[1, 0, 4, 2, 0, 1, 2, 5, 3, 2, 0, 1, 1, 2, 4, 1])
}

/// The quadratic through `(0, f0), (1, f1), (2, f2)` at `r`.
fn quadratic_at(f0: Fr, f1: Fr, f2: Fr, r: Fr) -> Fr {
    let one = Fr::one();
    let two = Fr::from_u64(2);
    let rm1 = r.minus(&one);
    let rm2 = r.minus(&two);
    let l0 = rm1.times(&rm2).over(&two);
    let l1 = Fr::zero().minus(&r.times(&rm2));
    let l2 = r.times(&rm1).over(&two);
    f0.times(&l0).plus(&f1.times(&l1)).plus(&f2.times(&l2))
}

#[test]
fn first_round_matches_the_claim() {
    let claim = p_vec()
        .iter()
        .zip(q_vec().iter())
        .fold(Fr::zero(), |acc, (x, y)| acc.plus(&x.times(y)));
    assert_eq!(claim, Fr::from_u64(84));
    let mut prover =
        ProductSumcheckProver::new(1, 4, VecStream::new(p_vec()), VecStream::new(q_vec()));
    prover.prove(frs(&[10, 5, 6, 2]), Fr::zero());
    assert_eq!(prover.eval_points.len(), 4);
    assert_eq!(
        prover.eval_points[0],
        (Fr::from_u64(44), Fr::from_u64(40), Fr::from_u64(22))
    );
    assert_eq!(prover.challenges, frs(&[10, 5, 6, 2]));
    assert_eq!(prover.compressed_polys.len(), 4);
    // 44 + c1 x + c2 x^2 with 2 c2 = 22 - 80 + 44.
    assert_eq!(prover.compressed_polys[0], vec![Fr::from_u64(44), Fr::zero().minus(&Fr::from_u64(7))]);
}

#[test]
fn rounds_are_consistent() {
    let mut prover =
        ProductSumcheckProver::new(1, 4, VecStream::new(p_vec()), VecStream::new(q_vec()));
    let challenges = frs(&[10, 5, 6, 2]);
    prover.prove(challenges.clone(), Fr::from_u64(3));
    let (f0, f1, _) = prover.eval_points[0];
    let mut claim = Fr::zero();
    for (x, y) in p_vec().iter().zip(q_vec().iter()) {
        claim = claim.plus(&x.times(&Fr::from_u64(3).plus(y)));
    }
    assert_eq!(f0.plus(&f1), claim);
    for j in 1..4 {
        let (a0, a1, a2) = prover.eval_points[j - 1];
        let (b0, b1, _) = prover.eval_points[j];
        assert_eq!(b0.plus(&b1), quadratic_at(a0, a1, a2, challenges[j - 1]), "round {}", j + 1);
    }
}

#[test]
fn concatenate_bits_places_fields() {
    let prover = ProductSumcheckProver::new(1, 4, VecStream::new(vec![]), VecStream::new(vec![]));
    assert_eq!(prover.concatenate_bits(5, 3, 3, 2, 9, 4), 377);
    assert_eq!(prover.concatenate_bits(1, 1, 0, 1, 3, 2), 11);
}

#[test]
fn two_round_prover_with_unit_phase() {
    // n = 2, k = 1: l = 1, so every round is in the space-constrained phase.
    let p = frs(&[1, 2, 3, 4]);
    let q = frs(&[5, 6, 7, 8]);
    let mut prover = ProductSumcheckProver::new(1, 2, VecStream::new(p.clone()), VecStream::new(q.clone()));
    let challenges = frs(&[3, 4]);
    prover.prove(challenges.clone(), Fr::zero());
    let (f0, f1, f2) = prover.eval_points[0];
    // f(0) pairs even indices, f(1) odd ones.
    assert_eq!(f0, Fr::from_u64(1 * 5 + 3 * 7));
    assert_eq!(f1, Fr::from_u64(2 * 6 + 4 * 8));
    let (g0, g1, _) = prover.eval_points[1];
    assert_eq!(g0.plus(&g1), quadratic_at(f0, f1, f2, challenges[0]));
}
