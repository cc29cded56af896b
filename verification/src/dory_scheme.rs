//! The layout-level decisions of the Dory commitment scheme: setup size, lengths and
//! layouts of commitments, streaming chunks and the final opening point.
use crate::dory_globals::{saturating_diff, DoryLayout};
use crate::dory_layout::{main_args_ok, CoefficientLayout, DoryCommitmentLayout};
use crate::layout::CommitmentContext;
use crate::math::{ceil_log2, log_2, pow2_usize};
use crate::opening_point::{
    point_result_is, FinalOpeningPointParts, OpeningPoint, OpeningPointError, BIG_ENDIAN,
};
use vstd::arithmetic::power2::pow2;
use vstd::prelude::*;

verus! {

/// The Dory commitment scheme with its configured orientation.
#[derive(Clone, Copy, Debug, PartialEq, Eq)]
pub struct DoryCommitmentScheme {
    pub layout: DoryLayout,
}

impl Default for DoryCommitmentScheme {
    fn default() -> (r: DoryCommitmentScheme)
        ensures
            r.layout == DoryLayout::CycleMajor,
    {
        DoryCommitmentScheme { layout: DoryLayout::CycleMajor }
    }
}

/// Setup sizes are rounded up to even: generator counts depend on `ceil(n / 2)`, so an
/// odd size shares the setup of the next even one.
pub fn canonical_setup_log_n(max_num_vars: usize) -> (r: usize)
    requires
        max_num_vars % 2 == 1 ==> max_num_vars < usize::MAX,
    ensures
        max_num_vars % 2 == 0 ==> r == max_num_vars,
        max_num_vars % 2 == 1 ==> r == max_num_vars + 1,
{
    if max_num_vars % 2 == 0 {
        max_num_vars
    } else {
        max_num_vars + 1
    }
}

/// The final opening point under a layout: in address-major orientation native openings
/// take the stage-6 cycle challenges followed by the stage-7 address challenges; in every
/// other case the canonical point of the parts.
pub fn compute_final_opening_point(layout: DoryLayout, parts: FinalOpeningPointParts) -> (r:
    Result<OpeningPoint<BIG_ENDIAN>, OpeningPointError>)
    requires
        layout != DoryLayout::AddressMajor ==> (parts matches FinalOpeningPointParts::Native {
            hamming_point,
            log_k_chunk,
            ..
        } ==> log_k_chunk <= hamming_point.r.len()),
    ensures
        layout == DoryLayout::AddressMajor && parts is Native ==> (r matches Ok(p) && p.r@
            == parts->r_cycle_stage6.r@ + parts->r_address_stage7@),
        layout != DoryLayout::AddressMajor || parts is DominantPrecommittedAnchor
            ==> point_result_is(r, parts.spec_canonical()),
{
    match (layout, parts) {
        (
            DoryLayout::AddressMajor,
            FinalOpeningPointParts::Native { r_address_stage7, r_cycle_stage6, .. },
        ) => {
            let mut point = r_cycle_stage6.r;
            let ghost base = point@;
            let mut k: usize = 0;
            while k < r_address_stage7.len()
                invariant
                    k <= r_address_stage7.len(),
                    point@ == base + r_address_stage7@.take(k as int),
                decreases r_address_stage7.len() - k,
            {
                point.push(r_address_stage7[k]);
                k = k + 1;
                proof {
                    assert(point@ =~= base + r_address_stage7@.take(k as int));
                }
            }
            proof {
                assert(r_address_stage7@.take(k as int) =~= r_address_stage7@);
            }
            Ok(OpeningPoint::new(point))
        },
        (_, parts) => parts.into_canonical(),
    }
}

impl DoryCommitmentScheme {
    /// The coefficient layout of a commitment context.
    pub fn coefficient_layout(config: &DoryLayout, context: CommitmentContext) -> (r:
        CoefficientLayout)
        requires
            context matches CommitmentContext::MainTrace { k, commitment_total_vars, .. }
                ==> main_args_ok(k as nat, commitment_total_vars as nat),
            context matches CommitmentContext::TrustedAdvice { len } ==> len <= usize::MAX / 2 + 1,
            context matches CommitmentContext::UntrustedAdvice { len } ==> len <= usize::MAX / 2
                + 1,
        ensures
            (exists|l: DoryCommitmentLayout|
                #[trigger] DoryCommitmentLayout::spec_from_context(l, *config, context)
                    && r.num_columns == l.spec_num_columns() && r.num_rows == l.spec_num_rows()
                    && r.T == l.spec_stored_t() && r.cycle_major == (l.spec_orientation()
                    == DoryLayout::CycleMajor)),
    {
        let layout = DoryCommitmentLayout::from_context(config, context);
        let r = layout.coefficient_layout();
        proof {
            assert(DoryCommitmentLayout::spec_from_context(layout, *config, context));
        }
        r
    }

    /// The commitment layout of a commitment context.
    pub fn commitment_layout(config: &DoryLayout, context: CommitmentContext) -> (r:
        DoryCommitmentLayout)
        requires
            context matches CommitmentContext::MainTrace { k, commitment_total_vars, .. }
                ==> main_args_ok(k as nat, commitment_total_vars as nat),
            context matches CommitmentContext::TrustedAdvice { len } ==> len <= usize::MAX / 2 + 1,
            context matches CommitmentContext::UntrustedAdvice { len } ==> len <= usize::MAX / 2
                + 1,
        ensures
            DoryCommitmentLayout::spec_from_context(r, *config, context),
    {
        DoryCommitmentLayout::from_context(config, context)
    }

    /// Number of coefficients of a commitment: for the main trace the embedded cycle
    /// count `2^(commitment_total_vars - log2 k)` (clamped at zero), otherwise the padded
    /// trace length.
    pub fn main_trace_commitment_len(
        _config: &DoryLayout,
        context: CommitmentContext,
        padded_trace_len: usize,
    ) -> (r: usize)
        requires
            context matches CommitmentContext::MainTrace { k, commitment_total_vars, .. } ==> {
                &&& k > 0
                &&& saturating_diff(commitment_total_vars as nat, ceil_log2(k as nat))
                    < usize::BITS
            },
        ensures
            context matches CommitmentContext::MainTrace { k, commitment_total_vars, .. } ==> r
                == pow2(saturating_diff(commitment_total_vars as nat, ceil_log2(k as nat))),
            !(context is MainTrace) ==> r == padded_trace_len,
    {
        match context {
            CommitmentContext::MainTrace { k, commitment_total_vars, .. } => {
                let lk = log_2(k);
                pow2_usize(commitment_total_vars.saturating_sub(lk))
            },
            _ => padded_trace_len,
        }
    }

    /// Rows are streamed one at a time in cycle-major orientation (chunks of a row's
    /// width); address-major commitments are not streamed in chunks.
    #[allow(non_snake_case)]
    pub fn streaming_chunk_size(
        &self,
        layout: &DoryCommitmentLayout,
        _K: usize,
        _T: usize,
    ) -> (r: Option<usize>)
        ensures
            layout.spec_orientation() == DoryLayout::AddressMajor ==> r is None,
            layout.spec_orientation() != DoryLayout::AddressMajor ==> r == Some(
                layout.spec_num_columns() as usize,
            ),
    {
        if layout.orientation() == DoryLayout::AddressMajor {
            None
        } else {
            Some(layout.num_columns())
        }
    }

    /// The final opening point under the configured orientation (see
    /// [`compute_final_opening_point`]).
    pub fn final_opening_point(config: &DoryLayout, parts: FinalOpeningPointParts) -> (r: Result<
        OpeningPoint<BIG_ENDIAN>,
        OpeningPointError,
    >)
        requires
            *config != DoryLayout::AddressMajor ==> (parts matches FinalOpeningPointParts::Native {
                hamming_point,
                log_k_chunk,
                ..
            } ==> log_k_chunk <= hamming_point.r.len()),
        ensures
            *config == DoryLayout::AddressMajor && parts is Native ==> (r matches Ok(p) && p.r@
                == parts->r_cycle_stage6.r@ + parts->r_address_stage7@),
            *config != DoryLayout::AddressMajor || parts is DominantPrecommittedAnchor
                ==> point_result_is(r, parts.spec_canonical()),
    {
        compute_final_opening_point(*config, parts)
    }
}

} // verus!
