use jolt_core::packed_opening::{check_packed_opening_shape, PackedOpeningShape, ProofVerifyError};

#[test]
fn packed_shape_of_consistent_state() {
    assert_eq!(
        check_packed_opening_shape(7, 2, 5, Some(4), 4, 10),
        Ok(PackedOpeningShape { num_packed: 5, selector_vars: 3, log_k: 4, log_t: 6 })
    );
    assert_eq!(
        check_packed_opening_shape(4, 0, 4, Some(0), 0, 3),
        Ok(PackedOpeningShape { num_packed: 4, selector_vars: 2, log_k: 0, log_t: 3 })
    );
}

#[test]
fn packed_shape_rejections() {
    assert_eq!(check_packed_opening_shape(1, 2, 0, Some(1), 1, 3), Err(ProofVerifyError::InvalidOpeningProof));
    assert_eq!(check_packed_opening_shape(2, 2, 0, Some(1), 1, 3), Err(ProofVerifyError::InvalidInputLength(1, 0)));
    assert_eq!(check_packed_opening_shape(5, 2, 4, Some(1), 1, 3), Err(ProofVerifyError::InvalidInputLength(3, 4)));
    assert_eq!(check_packed_opening_shape(5, 2, 3, None, 1, 3), Err(ProofVerifyError::InvalidOpeningProof));
    assert_eq!(check_packed_opening_shape(5, 2, 3, Some(2), 1, 3), Err(ProofVerifyError::InvalidInputLength(2, 1)));
    assert_eq!(check_packed_opening_shape(5, 2, 3, Some(4), 4, 3), Err(ProofVerifyError::InvalidInputLength(4, 3)));
}
