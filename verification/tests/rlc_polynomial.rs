use jolt_core::dory_globals::{DoryContext, DoryGlobals, DoryLayout};
use jolt_core::field::Fr;
use jolt_core::rlc_polynomial::RLCPolynomial;

fn frs(values: &[u64]) -> Vec<Fr> {
    values.iter().map(|v| Fr::from_u64(*v)).collect()
}

#[test]
fn cycle_major_vector_matrix_product() {
    let mut globals = DoryGlobals::new();
    globals.initialize_context(2, 4, DoryContext::Main, Some(DoryLayout::CycleMajor));
    assert_eq!(globals.get_num_columns(), 4);
    let poly = RLCPolynomial { dense_rlc: frs(&[1, 2, 3, 4, 5, 6]) };
    // Row 0 holds 1..4, row 1 holds 5, 6.
    let product = poly.vector_matrix_product(&globals, &frs(&[10, 100]));
    assert_eq!(product, frs(&[510, 620, 30, 40]));
    // Rows past the left vector are left out.
    let product = poly.vector_matrix_product(&globals, &frs(&[10]));
    assert_eq!(product, frs(&[10, 20, 30, 40]));
}

#[test]
fn address_major_vector_matrix_product() {
    let mut globals = DoryGlobals::new();
    globals.initialize_context(2, 4, DoryContext::Main, Some(DoryLayout::AddressMajor));
    assert_eq!(globals.get_num_columns(), 4);
    assert_eq!(globals.address_major_dense_stride(), 2);
    let poly = RLCPolynomial { dense_rlc: frs(&[1, 2, 3, 4]) };
    // Cycle t sits at position 2t: row 2t / 4, column 2t mod 4.
    let product = poly.vector_matrix_product(&globals, &frs(&[5, 6]));
    assert_eq!(product, frs(&[5 + 18, 0, 10 + 24, 0]));
    let product = poly.vector_matrix_product(&globals, &frs(&[5]));
    assert_eq!(product, frs(&[5, 0, 10, 0]));
}
