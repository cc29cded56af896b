//! The shape checks a verifier makes before it verifies a packed batch opening: how
//! many claims are packed, how many selector variables address them, and how the
//! opening point splits into address and cycle variables.
use crate::math::{ceil_log2, lemma_ceil_log2_bounds, log_2};
use vstd::arithmetic::power2::pow2;
use vstd::prelude::*;

verus! {

/// Why a proof was rejected.
#[derive(Clone, Copy, Debug, PartialEq, Eq, Structural)]
pub enum ProofVerifyError {
    /// The opening proof does not fit the accumulated openings.
    InvalidOpeningProof,
    /// A length differs from the one expected: `(expected, found)`.
    InvalidInputLength(usize, usize),
}

/// The shape of a packed opening.
#[derive(Clone, Copy, Debug, PartialEq, Eq, Structural)]
pub struct PackedOpeningShape {
    /// Number of packed polynomial claims.
    pub num_packed: usize,
    /// Variables that select among the packed claims: `ceil(log2(num_packed))`.
    pub selector_vars: usize,
    /// Address variables of the opening point.
    pub log_k: usize,
    /// Cycle variables of the opening point: the rest of it.
    pub log_t: usize,
}

/// What [`check_packed_opening_shape`] returns: the claims other than the individual
/// openings are packed, and there must be some; the proof must agree on their number
/// and on the address variables, which must exist and fit in the opening point.
pub open spec fn packed_opening_shape(
    num_claims: nat,
    num_individual: nat,
    proof_num_packed: nat,
    packed_log_k: Option<usize>,
    proof_log_k: nat,
    opening_point_len: nat,
) -> Result<PackedOpeningShape, ProofVerifyError> {
    if num_claims < num_individual {
        Err(ProofVerifyError::InvalidOpeningProof)
    } else if num_claims == num_individual {
        Err(ProofVerifyError::InvalidInputLength(1, 0))
    } else if proof_num_packed != num_claims - num_individual {
        Err(
            ProofVerifyError::InvalidInputLength(
                (num_claims - num_individual) as usize,
                proof_num_packed as usize,
            ),
        )
    } else {
        match packed_log_k {
            None => Err(ProofVerifyError::InvalidOpeningProof),
            Some(log_k) => if proof_log_k != log_k {
                Err(ProofVerifyError::InvalidInputLength(log_k, proof_log_k as usize))
            } else if opening_point_len < log_k {
                Err(ProofVerifyError::InvalidInputLength(log_k, opening_point_len as usize))
            } else {
                Ok(
                    PackedOpeningShape {
                        num_packed: (num_claims - num_individual) as usize,
                        selector_vars: ceil_log2((num_claims - num_individual) as nat) as usize,
                        log_k,
                        log_t: (opening_point_len - log_k) as usize,
                    },
                )
            },
        }
    }
}

/// What an accepted shape means: the proof packs exactly the claims that are not opened
/// individually (at least one), the selector variables are the fewest that address them
/// (`2^(s-1) < num_packed <= 2^s`), the address variables are the accumulated ones and
/// the proof's, and address and cycle variables make up the opening point.
pub open spec fn shape_accepted(
    s: PackedOpeningShape,
    num_claims: nat,
    num_individual: nat,
    proof_num_packed: nat,
    packed_log_k: Option<usize>,
    proof_log_k: nat,
    opening_point_len: nat,
) -> bool {
    &&& s.num_packed == proof_num_packed
    &&& s.num_packed + num_individual == num_claims
    &&& s.num_packed > 0
    &&& packed_log_k == Some(s.log_k)
    &&& s.log_k == proof_log_k
    &&& s.log_k + s.log_t == opening_point_len
    &&& s.num_packed <= pow2(s.selector_vars as nat)
    &&& s.selector_vars > 0 ==> pow2((s.selector_vars - 1) as nat) < s.num_packed
}

/// The shape check accepts exactly the consistent states, and rejects a proof whose
/// packed count differs from the accumulated one with `InvalidInputLength(expected,
/// found)`: a result is `Ok` only with a shape meeting [`shape_accepted`], and every
/// state in which the counts, the address variables and the point agree is accepted.
pub proof fn lemma_packed_shape_law(
    num_claims: nat,
    num_individual: nat,
    proof_num_packed: nat,
    packed_log_k: Option<usize>,
    proof_log_k: nat,
    opening_point_len: nat,
)
    requires
        num_claims <= usize::MAX,
        proof_num_packed <= usize::MAX,
        proof_log_k <= usize::MAX,
        opening_point_len <= usize::MAX,
    ensures
        ({
            let r = packed_opening_shape(
                num_claims,
                num_individual,
                proof_num_packed,
                packed_log_k,
                proof_log_k,
                opening_point_len,
            );
            &&& r matches Ok(s) ==> shape_accepted(
                s,
                num_claims,
                num_individual,
                proof_num_packed,
                packed_log_k,
                proof_log_k,
                opening_point_len,
            )
            &&& num_claims > num_individual && proof_num_packed + num_individual != num_claims ==> r
                == Err::<PackedOpeningShape, ProofVerifyError>(
                ProofVerifyError::InvalidInputLength(
                    (num_claims - num_individual) as usize,
                    proof_num_packed as usize,
                ),
            )
            &&& (proof_num_packed > 0 && proof_num_packed + num_individual == num_claims
                && packed_log_k == Some(proof_log_k as usize) && proof_log_k <= opening_point_len)
                ==> r is Ok
            &&& num_claims < num_individual ==> r == Err::<PackedOpeningShape, ProofVerifyError>(
                ProofVerifyError::InvalidOpeningProof,
            )
            &&& num_claims == num_individual ==> r == Err::<PackedOpeningShape, ProofVerifyError>(
                ProofVerifyError::InvalidInputLength(1, 0),
            )
            &&& (num_claims > num_individual && proof_num_packed + num_individual == num_claims
                && packed_log_k is None) ==> r == Err::<PackedOpeningShape, ProofVerifyError>(
                ProofVerifyError::InvalidOpeningProof,
            )
            &&& (num_claims > num_individual && proof_num_packed + num_individual == num_claims
                && packed_log_k is Some && packed_log_k.unwrap() != proof_log_k) ==> r == Err::<
                PackedOpeningShape,
                ProofVerifyError,
            >(ProofVerifyError::InvalidInputLength(packed_log_k.unwrap(), proof_log_k as usize))
            &&& (num_claims > num_individual && proof_num_packed + num_individual == num_claims
                && packed_log_k == Some(proof_log_k as usize) && opening_point_len < proof_log_k) ==> r
                == Err::<PackedOpeningShape, ProofVerifyError>(
                ProofVerifyError::InvalidInputLength(proof_log_k as usize, opening_point_len as usize),
            )
        }),
{
    if num_claims > num_individual {
        let np = (num_claims - num_individual) as nat;
        lemma_ceil_log2_bounds(np);
        crate::math::lemma_usize_bits();
        assert(np <= usize::MAX);
        if ceil_log2(np) > usize::MAX {
            vstd::arithmetic::power2::lemma_pow2_strictly_increases(usize::BITS as nat, (ceil_log2(np) - 1) as nat);
            assert(false);
        }
    }
}

/// Checks the accumulated state of a batch opening (`num_claims` claims, of which
/// `num_individual` are opened individually, address variables `packed_log_k`, an
/// opening point of `opening_point_len` variables) against the proof's packed count
/// and address variables, and returns the shape of the packed opening.
pub fn check_packed_opening_shape(
    num_claims: usize,
    num_individual: usize,
    proof_num_packed: usize,
    packed_log_k: Option<usize>,
    proof_log_k: usize,
    opening_point_len: usize,
) -> (r: Result<PackedOpeningShape, ProofVerifyError>)
    ensures
        r == packed_opening_shape(
            num_claims as nat,
            num_individual as nat,
            proof_num_packed as nat,
            packed_log_k,
            proof_log_k as nat,
            opening_point_len as nat,
        ),
        r matches Ok(s) ==> shape_accepted(
            s,
            num_claims as nat,
            num_individual as nat,
            proof_num_packed as nat,
            packed_log_k,
            proof_log_k as nat,
            opening_point_len as nat,
        ),
        num_claims > num_individual && proof_num_packed + num_individual != num_claims ==> r == Err::<
            PackedOpeningShape,
            ProofVerifyError,
        >(ProofVerifyError::InvalidInputLength((num_claims - num_individual) as usize, proof_num_packed)),
{
    proof {
        lemma_packed_shape_law(
            num_claims as nat,
            num_individual as nat,
            proof_num_packed as nat,
            packed_log_k,
            proof_log_k as nat,
            opening_point_len as nat,
        );
    }
    if num_claims < num_individual {
        return Err(ProofVerifyError::InvalidOpeningProof);
    }
    let num_packed = num_claims - num_individual;
    if num_packed == 0 {
        return Err(ProofVerifyError::InvalidInputLength(1, 0));
    }
    if proof_num_packed != num_packed {
        return Err(ProofVerifyError::InvalidInputLength(num_packed, proof_num_packed));
    }
    let selector_vars = log_2(num_packed);
    let log_k = match packed_log_k {
        Some(log_k) => log_k,
        None => {
            return Err(ProofVerifyError::InvalidOpeningProof);
        },
    };
    if proof_log_k != log_k {
        return Err(ProofVerifyError::InvalidInputLength(log_k, proof_log_k));
    }
    if opening_point_len < log_k {
        return Err(ProofVerifyError::InvalidInputLength(log_k, opening_point_len));
    }
    Ok(PackedOpeningShape { num_packed, selector_vars, log_k, log_t: opening_point_len - log_k })
}

} // verus!
