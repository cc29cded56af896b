use jolt_core::dory_globals::DoryLayout;
use jolt_core::dory_layout::DoryCommitmentLayout;
use jolt_core::dory_scheme::{canonical_setup_log_n, compute_final_opening_point, DoryCommitmentScheme};
use jolt_core::field::Fr;
use jolt_core::layout::CommitmentContext;
use jolt_core::opening_point::{FinalOpeningPointParts, OpeningPoint};

fn frs(values: &[u64]) -> Vec<Fr> {
    values.iter().map(|v| Fr::from_u64(*v)).collect()
}

fn native_parts() -> FinalOpeningPointParts {
    FinalOpeningPointParts::Native {
        r_address_stage7: frs(&[100, 101]),
        r_cycle_stage6: OpeningPoint::new(frs(&[5, 6, 7, 8])),
        hamming_point: OpeningPoint::new(frs(&[1, 2, 5, 6])),
        log_k_chunk: 2,
    }
}

#[test]
fn setup_size_rounds_up_to_even() {
    assert_eq!(canonical_setup_log_n(24), 24);
    assert_eq!(canonical_setup_log_n(23), 24);
    assert_eq!(canonical_setup_log_n(0), 0);
}

#[test]
fn final_point_depends_on_orientation() {
    let address = compute_final_opening_point(DoryLayout::AddressMajor, native_parts()).unwrap();
    assert_eq!(address.r, frs(&[5, 6, 7, 8, 100, 101]));
    let cycle = compute_final_opening_point(DoryLayout::CycleMajor, native_parts()).unwrap();
    assert_eq!(cycle.r, frs(&[7, 8, 100, 101, 5, 6]));
    let via_scheme =
        DoryCommitmentScheme::final_opening_point(&DoryLayout::CycleMajor, native_parts()).unwrap();
    assert_eq!(via_scheme, cycle);
}

#[test]
fn commitment_lengths_and_layouts() {
    let main = CommitmentContext::MainTrace {
        k: 16,
        trace_len: 64,
        commitment_total_vars: 12,
    };
    assert_eq!(DoryCommitmentScheme::main_trace_commitment_len(&DoryLayout::CycleMajor, main, 99), 256);
    let advice = CommitmentContext::TrustedAdvice { len: 10 };
    assert_eq!(DoryCommitmentScheme::main_trace_commitment_len(&DoryLayout::CycleMajor, advice, 99), 99);
    let layout = DoryCommitmentScheme::commitment_layout(&DoryLayout::AddressMajor, main);
    assert_eq!(layout, DoryCommitmentLayout::main(16, 64, 12, DoryLayout::AddressMajor));
    let coefficients = DoryCommitmentScheme::coefficient_layout(&DoryLayout::AddressMajor, main);
    assert_eq!(coefficients, layout.coefficient_layout());
    let scheme = DoryCommitmentScheme::default();
    assert_eq!(scheme.layout, DoryLayout::CycleMajor);
    assert_eq!(scheme.streaming_chunk_size(&layout, 16, 64), None);
    let cycle_layout = DoryCommitmentLayout::main(16, 64, 12, DoryLayout::CycleMajor);
    assert_eq!(scheme.streaming_chunk_size(&cycle_layout, 16, 64), Some(64));
}
