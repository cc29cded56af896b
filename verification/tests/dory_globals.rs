use jolt_core::dory_globals::{DoryContext, DoryGlobals, DoryLayout};

#[test]
fn address_cycle_index_round_trip() {
    let k = 4;
    let t = 8;
    for layout in [DoryLayout::CycleMajor, DoryLayout::AddressMajor] {
        for address in 0..k {
            for cycle in 0..t {
                let index = layout.address_cycle_to_index(address, cycle, k, t);
                assert_eq!(layout.index_to_address_cycle(index, k, t), (address, cycle));
            }
        }
    }
    assert_eq!(DoryLayout::CycleMajor.address_cycle_to_index(2, 3, 4, 8), 19);
    assert_eq!(DoryLayout::AddressMajor.address_cycle_to_index(2, 3, 4, 8), 14);
}

#[test]
fn layout_byte_encoding() {
    assert_eq!(DoryLayout::from_u8(0), DoryLayout::CycleMajor);
    assert_eq!(DoryLayout::from_u8(1), DoryLayout::AddressMajor);
    assert_eq!(DoryLayout::AddressMajor.to_u8(), 1);
    assert_eq!(DoryLayout::default(), DoryLayout::CycleMajor);
    for context in [
        DoryContext::Main,
        DoryContext::TrustedAdvice,
        DoryContext::UntrustedAdvice,
        DoryContext::Bytecode,
        DoryContext::ProgramImage,
    ] {
        assert_eq!(DoryContext::from_u8(context.to_u8()), context);
    }
}

#[test]
fn balanced_splits() {
    assert_eq!(DoryGlobals::balanced_sigma_nu(10), (5, 5));
    assert_eq!(DoryGlobals::balanced_sigma_nu(11), (6, 5));
    assert_eq!(DoryGlobals::main_sigma_nu(4, 7), (6, 5));
    assert_eq!(DoryGlobals::main_num_columns(4, 7), 64);
    assert_eq!(DoryGlobals::advice_sigma_nu_from_max_bytes(8 * 100), (4, 3));
    assert_eq!(DoryGlobals::cycle_row_len(10, 4), 6);
    assert_eq!(DoryGlobals::cycle_row_len(3, 4), 0);
}

#[test]
fn main_context_initialisation() {
    let mut globals = DoryGlobals::new();
    globals.initialize_context(16, 64, DoryContext::Main, Some(DoryLayout::AddressMajor));
    assert_eq!(globals.current_context(), DoryContext::Main);
    assert_eq!(globals.get_layout(), DoryLayout::AddressMajor);
    assert_eq!(globals.matrix_shape(), (32, 32));
    assert_eq!(globals.get_T(), 64);
    assert_eq!(globals.main_k(), 16);
    assert_eq!(globals.main_t(), 64);
    assert_eq!(globals.get_main_log_embedding(), 10);
    assert_eq!(globals.get_matrix_t(), 64);
    assert_eq!(globals.try_get_main_sigma_nu(), Some((5, 5)));
    assert_eq!(globals.address_major_one_hot_stride(), 1);
    assert_eq!(globals.address_major_dense_stride(), 16);
    globals.set_layout(DoryLayout::CycleMajor);
    assert_eq!(globals.address_major_one_hot_stride(), 1);
    assert_eq!(globals.address_major_dense_stride(), 1);
}

#[test]
fn embedding_beyond_trace_gives_strides() {
    let mut globals = DoryGlobals::new();
    globals.initialize_main_with_log_embedding(8, 16, 10, Some(DoryLayout::AddressMajor));
    assert_eq!(globals.get_main_log_embedding(), 10);
    assert_eq!(globals.matrix_shape(), (32, 32));
    assert_eq!(globals.get_matrix_t(), 128);
    assert_eq!(globals.address_major_one_hot_stride(), 8);
    assert_eq!(globals.address_major_dense_stride(), 64);
}

#[test]
fn context_guard_restores_previous_context() {
    let mut globals = DoryGlobals::new();
    globals.initialize_context(1, 100, DoryContext::TrustedAdvice, None);
    assert_eq!(globals.current_context(), DoryContext::Main);
    let guard = globals.with_context(DoryContext::TrustedAdvice);
    assert_eq!(globals.current_context(), DoryContext::TrustedAdvice);
    assert_eq!(globals.matrix_shape(), (8, 16));
    assert_eq!(globals.get_T(), 100);
    assert_eq!(globals.get_matrix_t(), 100);
    globals.restore_context(guard);
    assert_eq!(globals.current_context(), DoryContext::Main);
}

#[test]
fn dimensions_are_set_once() {
    let mut globals = DoryGlobals::new();
    globals.initialize_context(1, 16, DoryContext::UntrustedAdvice, None);
    globals.initialize_context(1, 1024, DoryContext::UntrustedAdvice, None);
    let guard = globals.with_context(DoryContext::UntrustedAdvice);
    assert_eq!(globals.get_T(), 16);
    assert_eq!(globals.matrix_shape(), (4, 4));
    globals.restore_context(guard);
    globals.reset();
    assert_eq!(globals.try_get_main_sigma_nu(), None);
}

#[test]
fn bytecode_context_dimensions() {
    let mut globals = DoryGlobals::new();
    globals.initialize_bytecode_context_with_dimensions(4, 16, 8);
    let guard = globals.with_context(DoryContext::Bytecode);
    assert_eq!(globals.matrix_shape(), (8, 8));
    assert_eq!(globals.get_T(), 16);
    globals.restore_context(guard);
    let mut wide = DoryGlobals::new();
    wide.initialize_bytecode_context_with_dimensions(1, 4, 16);
    wide.with_context(DoryContext::Bytecode);
    assert_eq!(wide.matrix_shape(), (1, 16));
}
