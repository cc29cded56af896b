use ark_serialize::CanonicalSerialize;
use jolt_core::dory_globals::{DoryContext, DoryLayout};
use jolt_core::dory_layout::{DoryCommitmentLayout, PolynomialShape};
use jolt_core::layout::{
    CommitmentContext, CommitmentLayout, Compress, LayoutDescriptor, LayoutError,
    LayoutPublicInputs, NoCommitmentLayout, Validate,
};

fn public() -> LayoutPublicInputs {
    LayoutPublicInputs {
        log_k: 4,
        log_t: 6,
        main_log_embedding: Some(10),
    }
}

fn round_trip(descriptor: &LayoutDescriptor, compress: Compress) -> LayoutDescriptor {
    let bytes = descriptor.serialize_with_mode(compress);
    LayoutDescriptor::deserialize_with_mode(&bytes[..], compress, Validate::Yes).unwrap()
}

#[test]
fn descriptor_round_trips_in_both_compress_modes() {
    for orientation in [DoryLayout::CycleMajor, DoryLayout::AddressMajor] {
        let descriptor = DoryCommitmentLayout::main(16, 64, 10, orientation).descriptor();
        for compress in [Compress::Yes, Compress::No] {
            assert_eq!(round_trip(&descriptor, compress), descriptor);
        }
    }
}

#[test]
fn validate_descriptor_recovers_orientation() {
    for orientation in [DoryLayout::CycleMajor, DoryLayout::AddressMajor] {
        let descriptor = DoryCommitmentLayout::main(16, 64, 10, orientation).descriptor();
        let reconstructed =
            DoryCommitmentLayout::validate_descriptor(&descriptor, &public()).unwrap();
        assert_eq!(reconstructed.orientation(), orientation);
    }
}

#[test]
fn validate_descriptor_rejects_wrong_scheme_tag() {
    let descriptor = LayoutDescriptor {
        scheme_tag: 999,
        payload: vec![0],
    };
    assert!(matches!(
        DoryCommitmentLayout::validate_descriptor(&descriptor, &public()),
        Err(LayoutError::SchemeTagMismatch { .. })
    ));
}

#[test]
fn validate_descriptor_rejects_malformed_payload() {
    for payload in [vec![], vec![0u8, 0u8], vec![2u8]] {
        let descriptor = LayoutDescriptor {
            scheme_tag: 1,
            payload,
        };
        assert!(matches!(
            DoryCommitmentLayout::validate_descriptor(&descriptor, &public()),
            Err(LayoutError::MalformedDescriptor)
        ));
    }
}

#[test]
fn tampered_descriptor_flips_reconstructed_orientation() {
    let cycle = DoryCommitmentLayout::main(16, 64, 10, DoryLayout::CycleMajor).descriptor();
    let address = DoryCommitmentLayout::main(16, 64, 10, DoryLayout::AddressMajor).descriptor();
    assert_ne!(cycle, address);
    assert_eq!(
        DoryCommitmentLayout::validate_descriptor(&cycle, &public())
            .unwrap()
            .orientation(),
        DoryLayout::CycleMajor
    );
    assert_eq!(
        DoryCommitmentLayout::validate_descriptor(&address, &public())
            .unwrap()
            .orientation(),
        DoryLayout::AddressMajor
    );
}

#[test]
fn scheme_tag_mismatch_reports_both_tags() {
    let descriptor = LayoutDescriptor {
        scheme_tag: 7,
        payload: vec![1],
    };
    assert_eq!(
        DoryCommitmentLayout::validate_descriptor(&descriptor, &public()),
        Err(LayoutError::SchemeTagMismatch {
            expected: 1,
            actual: 7
        })
    );
}

#[test]
fn main_layout_shape() {
    // 16 addresses, log-embedding 10: 2^6 embedded cycles, 10 variables split 5/5.
    let layout = DoryCommitmentLayout::main(16, 64, 10, DoryLayout::AddressMajor);
    assert_eq!(layout.context(), DoryContext::Main);
    assert_eq!(layout.matrix_shape(), (32, 32));
    assert_eq!(layout.sigma_nu(), (5, 5));
    assert_eq!(layout.num_columns(), 32);
    assert_eq!(layout.num_rows(), 32);
    assert_eq!(layout.stored_t(), 64);
    assert_eq!(layout.embedded_t(), 64);
    assert_eq!(layout.k(), 16);
    assert_eq!(layout.address_major_cycles_per_row(), 2);
    assert_eq!(layout.one_hot_stride(), 1);
    assert_eq!(layout.dense_stride(), 16);
    let coefficient_layout = layout.coefficient_layout();
    assert_eq!(coefficient_layout.num_columns, 32);
    assert_eq!(coefficient_layout.num_rows, 32);
    assert_eq!(coefficient_layout.T, 64);
    assert!(!coefficient_layout.cycle_major);
}

#[test]
fn main_layout_with_extra_embedding_vars() {
    // Stored 16 cycles but embedded in 2^7: three extra cycle variables.
    let layout = DoryCommitmentLayout::main(8, 16, 10, DoryLayout::AddressMajor);
    assert_eq!(layout.embedded_t(), 128);
    assert_eq!(layout.matrix_shape(), (32, 32));
    assert_eq!(layout.one_hot_stride(), 8);
    assert_eq!(layout.dense_stride(), 64);
    let cycle = DoryCommitmentLayout::main(8, 16, 10, DoryLayout::CycleMajor);
    assert_eq!(cycle.one_hot_stride(), 1);
    assert_eq!(cycle.dense_stride(), 1);
    assert!(cycle.coefficient_layout().cycle_major);
}

#[test]
fn odd_total_vars_give_wider_matrix() {
    let layout = DoryCommitmentLayout::main(4, 8, 5, DoryLayout::CycleMajor);
    assert_eq!(layout.matrix_shape(), (4, 8));
    assert_eq!(layout.sigma_nu(), (3, 2));
}

#[test]
fn advice_layout_rounds_up_to_power_of_two() {
    let layout = DoryCommitmentLayout::advice(DoryContext::TrustedAdvice, 100);
    assert_eq!(layout.context(), DoryContext::TrustedAdvice);
    assert_eq!(layout.orientation(), DoryLayout::CycleMajor);
    assert_eq!(layout.stored_t(), 128);
    assert_eq!(layout.embedded_t(), 128);
    assert_eq!(layout.matrix_shape(), (8, 16));
    assert_eq!(layout.k(), 1);
    assert_eq!(layout.address_major_cycles_per_row(), 16);
    assert_eq!(layout.one_hot_stride(), 1);
    assert_eq!(layout.dense_stride(), 1);
    let empty = DoryCommitmentLayout::advice(DoryContext::UntrustedAdvice, 0);
    assert_eq!(empty.stored_t(), 1);
    assert_eq!(empty.matrix_shape(), (1, 1));
}

#[test]
fn from_context_dispatches_on_context() {
    let main = DoryCommitmentLayout::from_context(
        &DoryLayout::AddressMajor,
        CommitmentContext::MainTrace {
            k: 16,
            trace_len: 64,
            commitment_total_vars: 10,
        },
    );
    assert_eq!(main, DoryCommitmentLayout::main(16, 64, 10, DoryLayout::AddressMajor));
    let trusted = DoryCommitmentLayout::from_context(
        &DoryLayout::AddressMajor,
        CommitmentContext::TrustedAdvice { len: 5 },
    );
    assert_eq!(trusted, DoryCommitmentLayout::advice(DoryContext::TrustedAdvice, 5));
    let untrusted = DoryCommitmentLayout::from_context(
        &DoryLayout::CycleMajor,
        CommitmentContext::UntrustedAdvice { len: 9 },
    );
    assert_eq!(untrusted, DoryCommitmentLayout::advice(DoryContext::UntrustedAdvice, 9));
}

#[test]
fn validated_layout_matches_main_layout() {
    let descriptor = LayoutDescriptor {
        scheme_tag: 1,
        payload: vec![1],
    };
    let rebuilt = DoryCommitmentLayout::validate_descriptor(&descriptor, &public()).unwrap();
    assert_eq!(rebuilt, DoryCommitmentLayout::main(16, 64, 10, DoryLayout::AddressMajor));
    let no_embedding = LayoutPublicInputs {
        log_k: 2,
        log_t: 3,
        main_log_embedding: None,
    };
    let rebuilt = DoryCommitmentLayout::validate_descriptor(&descriptor, &no_embedding).unwrap();
    assert_eq!(rebuilt, DoryCommitmentLayout::main(4, 8, 5, DoryLayout::AddressMajor));
}

#[test]
fn descriptor_bytes_match_arkworks_encoding() {
    let descriptor = LayoutDescriptor {
        scheme_tag: 0x0102,
        payload: vec![7, 8, 9],
    };
    let mut expected = Vec::new();
    (descriptor.scheme_tag, descriptor.payload.clone())
        .serialize_compressed(&mut expected)
        .unwrap();
    assert_eq!(descriptor.serialize_with_mode(Compress::Yes), expected);
    assert_eq!(
        expected,
        vec![0x02, 0x01, 3, 0, 0, 0, 0, 0, 0, 0, 7, 8, 9]
    );
}

#[test]
fn truncated_descriptor_bytes_are_rejected() {
    let bytes = [1u8, 0, 5, 0, 0, 0, 0, 0, 0, 0, 1, 2];
    assert!(LayoutDescriptor::deserialize_with_mode(&bytes, Compress::No, Validate::Yes).is_err());
    assert!(LayoutDescriptor::deserialize_with_mode(&bytes[..4], Compress::No, Validate::Yes).is_err());
}

#[test]
fn standalone_polynomial_layouts() {
    let one_hot = DoryCommitmentLayout::for_polynomial(
        &PolynomialShape::OneHot {
            k: 16,
            nonzero_count: 64,
            num_vars: 10,
        },
        DoryLayout::AddressMajor,
    );
    assert_eq!(one_hot, DoryCommitmentLayout::main(16, 64, 10, DoryLayout::AddressMajor));
    let dense = DoryCommitmentLayout::for_polynomial(
        &PolynomialShape::Dense { original_len: 100 },
        DoryLayout::CycleMajor,
    );
    assert_eq!(dense, DoryCommitmentLayout::main(1, 128, 7, DoryLayout::CycleMajor));
    assert_eq!(dense.matrix_shape(), (8, 16));
    let empty = DoryCommitmentLayout::for_polynomial(
        &PolynomialShape::Dense { original_len: 0 },
        DoryLayout::CycleMajor,
    );
    assert_eq!(empty.matrix_shape(), (1, 1));
}

#[test]
fn no_commitment_layout_accepts_only_its_own_descriptor() {
    let layout = NoCommitmentLayout;
    let descriptor = layout.descriptor();
    assert_eq!(descriptor.scheme_tag, 0);
    assert!(descriptor.payload.is_empty());
    assert_eq!(
        NoCommitmentLayout::validate_descriptor(&descriptor, &public()),
        Ok(NoCommitmentLayout)
    );
    let other = LayoutDescriptor {
        scheme_tag: 0,
        payload: vec![1],
    };
    assert_eq!(
        NoCommitmentLayout::validate_descriptor(&other, &public()),
        Err(LayoutError::MalformedDescriptor)
    );
    assert_eq!(layout.max_setup_vars(), 0);
}
