use jolt_core::advice_opening::AdvicePolynomialProverOpening;
use jolt_core::dory_globals::{DoryContext, DoryGlobals};

#[test]
fn advice_variables_and_binding_rounds() {
    let mut globals = DoryGlobals::new();
    // main: 16 addresses x 64 cycles -> 32 x 32 matrix, log T = 6
    globals.initialize_context(16, 64, DoryContext::Main, None);
    // trusted advice: 32 words -> 4 rows x 8 columns
    globals.initialize_context(1, 32, DoryContext::TrustedAdvice, None);
    let guard = globals.with_context(DoryContext::TrustedAdvice);
    assert_eq!(globals.matrix_shape(), (4, 8));
    globals.restore_context(guard);
    assert_eq!(AdvicePolynomialProverOpening::number_of_variables(&mut globals), 5);
    assert_eq!(globals.current_context(), DoryContext::Main);
    // rows 5, columns 5, log_T' = 10 - 6 = 4: order [3,2,1,0,9,8,7,6,5,4];
    // row window [3..5) and column window [7..10).
    assert_eq!(
        AdvicePolynomialProverOpening::calculate_binding_rounds(&mut globals),
        vec![0, 9, 6, 5, 4]
    );
    assert_eq!(globals.current_context(), DoryContext::Main);
}
