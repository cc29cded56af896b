use jolt_core::field::Fr;
use jolt_core::opening_point::{
    FinalOpeningPointParts, OpeningPoint, OpeningPointError, BIG_ENDIAN, LITTLE_ENDIAN,
};

fn frs(values: &[u64]) -> Vec<Fr> {
    values.iter().map(|v| Fr::from_u64(*v)).collect()
}

#[test]
fn split_and_reverse() {
    let point = OpeningPoint::<BIG_ENDIAN>::new(frs(&[1, 2, 3, 4]));
    assert_eq!(point.len(), 4);
    assert_eq!(point.get(2), Fr::from_u64(3));
    let (left, right) = point.split_at(1);
    assert_eq!(left.r, frs(&[1]));
    assert_eq!(right.r, frs(&[2, 3, 4]));
    assert_eq!(point.endianness(), "big");
    let little: OpeningPoint<LITTLE_ENDIAN> = point.match_endianness::<LITTLE_ENDIAN>();
    assert_eq!(little.r, frs(&[4, 3, 2, 1]));
    assert_eq!(little.endianness(), "little");
    let back: OpeningPoint<BIG_ENDIAN> = little.match_endianness::<BIG_ENDIAN>();
    assert_eq!(back, point);
    let same: OpeningPoint<BIG_ENDIAN> = point.match_endianness::<BIG_ENDIAN>();
    assert_eq!(same, point);
}

#[test]
fn anchor_is_taken_as_is() {
    let point = OpeningPoint::<BIG_ENDIAN>::new(frs(&[9, 8]));
    let parts = FinalOpeningPointParts::DominantPrecommittedAnchor { point: point.clone() };
    assert_eq!(parts.into_canonical(), Ok(point));
}

#[test]
fn native_parts_are_reordered() {
    let parts = FinalOpeningPointParts::Native {
        r_address_stage7: frs(&[100, 101]),
        r_cycle_stage6: OpeningPoint::new(frs(&[5, 6, 7, 8])),
        hamming_point: OpeningPoint::new(frs(&[1, 2, 5, 6])),
        log_k_chunk: 2,
    };
    let canonical = parts.into_canonical().unwrap();
    assert_eq!(canonical.r, frs(&[7, 8, 100, 101, 5, 6]));
}

#[test]
fn native_parts_errors() {
    let short = FinalOpeningPointParts::Native {
        r_address_stage7: frs(&[1]),
        r_cycle_stage6: OpeningPoint::new(frs(&[5])),
        hamming_point: OpeningPoint::new(frs(&[1, 5, 6])),
        log_k_chunk: 1,
    };
    assert_eq!(short.into_canonical(), Err(OpeningPointError::CycleChallengesTooShort));
    let mismatch = FinalOpeningPointParts::Native {
        r_address_stage7: frs(&[1]),
        r_cycle_stage6: OpeningPoint::new(frs(&[5, 7, 9])),
        hamming_point: OpeningPoint::new(frs(&[1, 5, 6])),
        log_k_chunk: 1,
    };
    assert_eq!(
        mismatch.into_canonical(),
        Err(OpeningPointError::CyclePrefixMismatch {
            cycle_full_len: 3,
            native_len: 2
        })
    );
}
