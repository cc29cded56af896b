//! Verified core of the Jolt zkVM commitment and sumcheck layer.
pub mod math;
pub mod field;
pub mod dory_globals;
pub mod layout;
pub mod dory_layout;
pub mod eq_poly;
pub mod simple_eq_poly;
pub mod stream;
pub mod product_sumcheck;
pub mod partially_bound_sumcheck;
pub mod opening_point;
pub mod calendar;
pub mod advice_opening;
pub mod dory_scheme;
pub mod rlc_polynomial;
pub mod packed_opening;
pub mod sumcheck;
pub mod opening_reduction;
pub mod batched_sumcheck;
