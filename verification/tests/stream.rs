use ark_std::rand::Rng;
use jolt_core::eq_poly::EqPolynomial;
use jolt_core::field::Fr;
use jolt_core::stream::{
    bytecode_to_val, BytecodePreprocessing, FunctionStream, LagrangeBasisStream,
    NormalizedInstruction, NormalizedOperands, RaStream, ValStream, VecStream,
};

fn fr(x: u64) -> Fr {
    Fr::from_u64(x)
}

fn instruction(address: usize, rd: usize, rs1: usize, rs2: usize, imm: i64) -> NormalizedInstruction {
    NormalizedInstruction {
        address,
        operands: NormalizedOperands { rs1, rs2, rd, imm },
        virtual_sequence_remaining: None,
    }
}

#[test]
fn test_correctness() {
    const LENGTH: usize = 20;
    let mut rng = ark_std::test_rng();
    let input: Vec<Fr> = (0..10).map(|_| Fr::from_u128(rng.gen::<u128>())).collect();
    let expected_basis = EqPolynomial::evals(&input);
    let mut basis_stream = LagrangeBasisStream::new(&input);
    for i in 0..LENGTH {
        assert_eq!(expected_basis[i], basis_stream.next().unwrap(), "round: {}", i);
    }
    basis_stream.reset();
    let computed_basis = basis_stream.into_vec();
    for i in 0..LENGTH {
        assert_eq!(expected_basis[i], computed_basis[i], "round: {}", i);
    }
    assert_eq!(computed_basis, expected_basis);
}

#[test]
fn lagrange_stream_ends_after_all_indices() {
    let input = vec![fr(3), fr(5)];
    let mut stream = LagrangeBasisStream::new(&input);
    let expected = EqPolynomial::evals(&input);
    for value in expected.iter() {
        assert_eq!(stream.next(), Some(*value));
    }
    assert_eq!(stream.next(), None);
    assert_eq!(stream.next(), None);
    stream.reset();
    assert_eq!(stream.next(), Some(expected[0]));
}

#[test]
fn lagrange_stream_of_empty_point() {
    let input: Vec<Fr> = Vec::new();
    let stream = LagrangeBasisStream::new(&input);
    assert_eq!(stream.into_vec(), vec![Fr::one()]);
}

#[test]
fn bytecode_value_is_gamma_combination() {
    let gamma = fr(10);
    let v = bytecode_to_val(&instruction(7, 1, 2, 3, 4), gamma);
    assert_eq!(v, fr(7 + 10 + 200 + 3000 + 40000));
    let negative = bytecode_to_val(&instruction(0, 0, 0, 0, -1), gamma);
    assert_eq!(negative, Fr::zero().minus(&fr(10000)));
}

#[test]
fn val_stream_yields_each_row_then_none() {
    let bytecode = BytecodePreprocessing {
        bytecode: vec![instruction(1, 0, 0, 0, 0), instruction(2, 1, 0, 0, 0)],
    };
    let mut stream = ValStream::new(bytecode, fr(3));
    assert_eq!(stream.next(), Some(fr(1)));
    assert_eq!(stream.next(), Some(fr(5)));
    assert_eq!(stream.next(), None);
    stream.reset();
    assert_eq!(stream.next(), Some(fr(1)));
    assert_eq!(stream.into_vec(), vec![fr(5)]);
}

#[test]
fn ra_stream_groups_eq_weights_by_row() {
    let bytecode = BytecodePreprocessing {
        bytecode: vec![instruction(0, 0, 0, 0, 0); 3],
    };
    let r_cycle = vec![fr(2), fr(3)];
    let r_shift = vec![fr(5), fr(7)];
    let pcs = [0usize, 2, 0, 3];
    let (mut stream, f_shift, e) = RaStream::new(bytecode, &pcs, r_cycle.clone(), r_shift.clone(), fr(0));
    let e_cycle = EqPolynomial::evals(&r_cycle);
    let e_shift = EqPolynomial::evals(&r_shift);
    assert_eq!(e, e_cycle);
    let expected = vec![e_cycle[0].plus(&e_cycle[2]), Fr::zero(), e_cycle[1], e_cycle[3]];
    assert_eq!(stream.get_vector(), expected);
    assert_eq!(
        f_shift,
        vec![e_shift[0].plus(&e_shift[2]), Fr::zero(), e_shift[1], e_shift[3]]
    );
    assert_eq!(stream.next(), Some(expected[0]));
    assert_eq!(stream.into_vec(), expected[1..].to_vec());
}

#[test]
fn vec_stream_replays_its_values() {
    let mut stream = VecStream::new(vec![fr(4), fr(9)]);
    assert_eq!(stream.next(), Some(fr(4)));
    assert_eq!(stream.next(), Some(fr(9)));
    assert_eq!(stream.next(), None);
    assert_eq!(stream.into_vec(), Vec::<Fr>::new());
    let fresh = VecStream::new(vec![fr(4), fr(9)]);
    assert_eq!(fresh.into_vec(), vec![fr(4), fr(9)]);
}

#[test]
fn lagrange_stream_collects_what_remains() {
    let input = vec![fr(2), fr(3)];
    let expected = EqPolynomial::evals(&input);
    assert_eq!(
        expected,
        vec![fr(2), Fr::zero().minus(&fr(3)), Fr::zero().minus(&fr(4)), fr(6)]
    );
    let mut stream = LagrangeBasisStream::new(&input);
    assert_eq!(stream.next(), Some(expected[0]));
    assert_eq!(stream.into_vec(), expected[1..].to_vec());
}
