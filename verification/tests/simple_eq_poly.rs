use ark_std::rand::Rng;
use jolt_core::eq_poly::EqPolynomial;
use jolt_core::field::Fr;
use jolt_core::partially_bound_sumcheck::PartiallyBoundSumcheck;
use jolt_core::simple_eq_poly::{SimpleEqCycleState, SimpleEqPolynomial};

fn random_point(len: usize) -> Vec<Fr> {
    let mut rng = ark_std::test_rng();
    (0..len).map(|_| Fr::from_u128(rng.gen::<u128>())).collect()
}

#[test]
fn test_simple_eq_bind() {
    const NUM_VARS: usize = 10;
    let w = random_point(NUM_VARS);
    // The table of eq(w, .), bound low to high by the library's own binding.
    let mut regular_eq = PartiallyBoundSumcheck::new(vec![EqPolynomial::evals(&w)], 1, |v: &[Fr]| v[0]);
    let mut simple_eq = SimpleEqPolynomial::new(&w);
    assert_eq!(regular_eq.polys[0][..], simple_eq.evals[..]);
    let challenges = random_point(2 * NUM_VARS);
    for round in 0..NUM_VARS {
        let r = challenges[NUM_VARS + round];
        regular_eq.ingest_challenge(r);
        simple_eq.bind(r);
        assert_eq!(regular_eq.polys[0][..], simple_eq.evals[..]);
    }
    assert_eq!(simple_eq.len(), 1);
    assert_eq!(simple_eq.num_bound, NUM_VARS);
}

#[test]
fn test_simple_eq_sumcheck_poly() {
    const NUM_VARS: usize = 6;
    let w = random_point(NUM_VARS);
    let simple_eq = SimpleEqPolynomial::new(&w);
    let poly_evals = random_point(1 << NUM_VARS);
    let mut actual_claim = Fr::zero();
    for (p, e) in poly_evals.iter().zip(simple_eq.evals.iter()) {
        actual_claim = actual_claim.plus(&p.times(e));
    }
    let uni_poly = simple_eq.compute_sumcheck_poly(&poly_evals);
    let s_0 = uni_poly[0];
    let s_1 = uni_poly[1];
    assert_eq!(s_0.plus(&s_1), actual_claim);
}

#[test]
fn binding_every_variable_leaves_the_eq_of_the_two_points() {
    // eq(w, r) = ∏ (w_i r_i + (1 - w_i)(1 - r_i)); binding low to high meets w from its end.
    let w = vec![Fr::from_u64(2), Fr::from_u64(3), Fr::from_u64(5)];
    let r = vec![Fr::from_u64(7), Fr::from_u64(11), Fr::from_u64(13)];
    let mut poly = SimpleEqPolynomial::new(&w);
    for x in &r {
        poly.bind(*x);
    }
    let mut expected = Fr::one();
    for i in 0..3 {
        let wi = w[2 - i];
        let ri = r[i];
        let term = wi
            .times(&ri)
            .plus(&Fr::one().minus(&wi).times(&Fr::one().minus(&ri)));
        expected = expected.times(&term);
    }
    assert_eq!(poly.evals, vec![expected]);
    assert_eq!(poly.remaining_vars(), 0);
    assert_eq!(poly.get_num_vars(), 3);
}

#[test]
fn sumcheck_poly_value_at_two_extrapolates() {
    let w = vec![Fr::from_u64(4)];
    let poly = SimpleEqPolynomial::new(&w);
    let f = vec![Fr::from_u64(10), Fr::from_u64(20)];
    let s = poly.compute_sumcheck_poly(&f);
    let e0 = poly.get_eval(0);
    let e1 = poly.get_eval(1);
    assert_eq!(s[0], e0.times(&f[0]));
    assert_eq!(s[1], e1.times(&f[1]));
    let e2 = e1.plus(&e1).minus(&e0);
    assert_eq!(s[2], e2.times(&Fr::from_u64(30)));
}

#[test]
fn scaled_and_cycle_state_constructors() {
    let w = random_point(3);
    let scaled = SimpleEqPolynomial::new_with_scaling(&w, Some(Fr::from_u64(5)));
    let plain = SimpleEqPolynomial::new(&w);
    for i in 0..8 {
        assert_eq!(scaled.get_eval(i), plain.get_eval(i).times(&Fr::from_u64(5)));
    }
    assert!(!plain.is_empty());
    assert_eq!(plain.evals().len(), 8);
    let state = SimpleEqCycleState::new(&w);
    assert_eq!(state.num_variables_bound, 0);
    assert_eq!(state.D.evals, plain.evals);
}
