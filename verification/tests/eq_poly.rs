use jolt_core::eq_poly::EqPolynomial;
use jolt_core::field::Fr;

fn fr(x: u64) -> Fr {
    Fr::from_u64(x)
}

fn one_minus(x: Fr) -> Fr {
    Fr::one().minus(&x)
}

#[test]
fn eq_table_is_big_endian_product() {
    let r = vec![fr(2), fr(3)];
    let evals = EqPolynomial::evals(&r);
    assert_eq!(evals.len(), 4);
    // index 1 = bits (0, 1): first coordinate pairs with the high bit
    assert_eq!(evals[0], one_minus(fr(2)).times(&one_minus(fr(3))));
    assert_eq!(evals[1], one_minus(fr(2)).times(&fr(3)));
    assert_eq!(evals[2], fr(2).times(&one_minus(fr(3))));
    assert_eq!(evals[3], fr(6));
}

#[test]
fn eq_table_of_no_variables_is_one() {
    let evals = EqPolynomial::evals(&[]);
    assert_eq!(evals, vec![Fr::one()]);
    let scaled = EqPolynomial::evals_with_scaling(&[], Some(fr(9)));
    assert_eq!(scaled, vec![fr(9)]);
}

#[test]
fn scaling_multiplies_every_entry() {
    let r = vec![fr(5), fr(7), fr(11)];
    let plain = EqPolynomial::evals(&r);
    let scaled = EqPolynomial::evals_with_scaling(&r, Some(fr(3)));
    let unscaled = EqPolynomial::evals_with_scaling(&r, None);
    assert_eq!(plain, unscaled);
    for i in 0..8 {
        assert_eq!(scaled[i], plain[i].times(&fr(3)));
    }
}

#[test]
fn eq_table_at_boolean_point_is_indicator() {
    let r = vec![fr(1), fr(0), fr(1)];
    let evals = EqPolynomial::evals(&r);
    for i in 0..8 {
        let expected = if i == 0b101 { Fr::one() } else { Fr::zero() };
        assert_eq!(evals[i], expected);
    }
}
