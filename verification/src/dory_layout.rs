//! The Dory commitment layout: matrix shape, cycle embedding and orientation of a
//! committed polynomial, and its descriptor.
use crate::dory_globals::{
    balanced_nu, balanced_sigma, byte_of_layout, layout_of_byte, saturating_diff, DoryContext,
    DoryGlobals, DoryLayout,
};
use crate::layout::{
    CommitmentContext, CommitmentLayout, LayoutDescriptor, LayoutError, LayoutPublicInputs,
};
use crate::math::{
    ceil_log2, lemma_ceil_log2_bounds, lemma_ceil_log2_pow2, lemma_usize_bits, log_2, next_pow2,
    next_power_of_two, pow2_usize,
};
use vstd::arithmetic::power2::{lemma_pow2_adds, lemma_pow2_pos, pow2};
use vstd::prelude::*;

verus! {

/// Scheme tag of Dory layout descriptors.
pub const DORY_LAYOUT_SCHEME_TAG: u16 = 1;

/// Matrix shape of a committed polynomial, as consumed by the coefficient mapping.
#[derive(Clone, Copy, Debug, PartialEq, Eq)]
#[allow(non_snake_case)]
pub struct CoefficientLayout {
    pub num_columns: usize,
    pub num_rows: usize,
    pub T: usize,
    pub cycle_major: bool,
}

#[derive(Clone, Copy, Debug, PartialEq, Eq)]
struct DoryMatrixShape {
    num_columns: usize,
    num_rows: usize,
}

impl DoryMatrixShape {
    /// `2^nu` rows by `2^sigma` columns for the balanced split of `total_vars`.
    fn balanced(total_vars: usize) -> (r: DoryMatrixShape)
        requires
            balanced_sigma(total_vars as nat) < usize::BITS,
        ensures
            r.num_columns == pow2(balanced_sigma(total_vars as nat)),
            r.num_rows == pow2(balanced_nu(total_vars as nat)),
    {
        let (sigma, nu) = DoryGlobals::balanced_sigma_nu(total_vars);
        DoryMatrixShape { num_columns: pow2_usize(sigma), num_rows: pow2_usize(nu) }
    }

    /// `(log2 columns, log2 rows)`.
    fn sigma_nu(self) -> (r: (usize, usize))
        requires
            self.num_columns > 0,
            self.num_rows > 0,
        ensures
            r.0 == ceil_log2(self.num_columns as nat),
            r.1 == ceil_log2(self.num_rows as nat),
    {
        (log_2(self.num_columns), log_2(self.num_rows))
    }
}

#[derive(Clone, Copy, Debug, PartialEq, Eq)]
struct DoryEmbedding {
    stored_t: usize,
    embedded_t: usize,
    main_log_embedding: usize,
}

/// What the layout of a standalone committed polynomial depends on: a one-hot
/// polynomial's address count `k`, number of nonzero cycles and number of variables, or
/// the length of any other polynomial's coefficient vector.
#[derive(Clone, Copy, Debug, PartialEq, Eq)]
pub enum PolynomialShape {
    OneHot { k: usize, nonzero_count: usize, num_vars: usize },
    Dense { original_len: usize },
}

/// The layout of one Dory commitment.
#[derive(Clone, Copy, Debug, PartialEq, Eq)]
pub struct DoryCommitmentLayout {
    context: DoryContext,
    orientation: DoryLayout,
    k: usize,
    shape: DoryMatrixShape,
    embedding: DoryEmbedding,
}

/// The log-embedding of the main matrix determined by public inputs.
pub open spec fn public_main_log_embedding(public: LayoutPublicInputs) -> nat {
    match public.main_log_embedding {
        Some(e) => e as nat,
        None => (public.log_k + public.log_t) as nat,
    }
}

/// Arguments for which [`DoryCommitmentLayout::main`] is defined: `k > 0` and the
/// embedding and matrix sides fit in a machine word.
pub open spec fn main_args_ok(k: nat, main_log_embedding: nat) -> bool {
    let s = saturating_diff(main_log_embedding, ceil_log2(k));
    &&& k > 0
    &&& s < usize::BITS
    &&& balanced_sigma(ceil_log2(k) + s) < usize::BITS
}

/// Public inputs from which a Dory layout can be rebuilt.
pub open spec fn public_inputs_ok(public: LayoutPublicInputs) -> bool {
    &&& public.log_k < usize::BITS
    &&& public.log_t < usize::BITS
    &&& public.main_log_embedding is None ==> public.log_k + public.log_t <= usize::MAX
    &&& main_args_ok(pow2(public.log_k as nat), public_main_log_embedding(public))
}

/// The descriptor tag and payload of a Dory layout with the given orientation.
pub open spec fn spec_dory_descriptor(orientation: DoryLayout) -> (u16, Seq<u8>) {
    (DORY_LAYOUT_SCHEME_TAG, seq![byte_of_layout(orientation)])
}

/// A descriptor passes the tag and payload checks of the Dory layout.
pub open spec fn dory_descriptor_accepted(scheme_tag: u16, payload: Seq<u8>) -> bool {
    scheme_tag == DORY_LAYOUT_SCHEME_TAG && payload.len() == 1 && payload[0] <= 1
}

impl DoryCommitmentLayout {
    #[verifier::type_invariant]
    spec fn inv(self) -> bool {
        &&& self.k > 0
        &&& self.shape.num_columns > 0
        &&& self.shape.num_rows > 0
        &&& self.context != DoryContext::Main ==> self.k == 1 && self.embedding.stored_t
            == self.shape.num_rows * self.shape.num_columns
    }

    /// The context the layout belongs to.
    pub closed spec fn spec_context(self) -> DoryContext {
        self.context
    }

    /// The orientation of the coefficients.
    pub closed spec fn spec_orientation(self) -> DoryLayout {
        self.orientation
    }

    /// The address-space size recorded for the main matrix (`1` for advice).
    pub closed spec fn spec_k(self) -> nat {
        self.k as nat
    }

    /// Columns of the matrix.
    pub closed spec fn spec_num_columns(self) -> nat {
        self.shape.num_columns as nat
    }

    /// Rows of the matrix.
    pub closed spec fn spec_num_rows(self) -> nat {
        self.shape.num_rows as nat
    }

    /// The stored cycle count.
    pub closed spec fn spec_stored_t(self) -> nat {
        self.embedding.stored_t as nat
    }

    /// The cycle count of the embedding.
    pub closed spec fn spec_embedded_t(self) -> nat {
        self.embedding.embedded_t as nat
    }

    /// The log-embedding of the matrix.
    pub closed spec fn spec_main_log_embedding(self) -> nat {
        self.embedding.main_log_embedding as nat
    }

    /// The layout of the main matrix for `k` addresses, `trace_len` stored cycles and
    /// log-embedding `main_log_embedding`: the cycle domain is padded to
    /// `2^(main_log_embedding - log2 k)` and the matrix is the balanced split of
    /// `log2 k` plus that many cycle variables.
    pub open spec fn spec_main(
        layout: Self,
        k: nat,
        trace_len: nat,
        main_log_embedding: nat,
        orientation: DoryLayout,
    ) -> bool {
        let s = saturating_diff(main_log_embedding, ceil_log2(k));
        let tv = ceil_log2(k) + s;
        &&& layout.spec_context() == DoryContext::Main
        &&& layout.spec_orientation() == orientation
        &&& layout.spec_k() == k
        &&& layout.spec_num_columns() == pow2(balanced_sigma(tv))
        &&& layout.spec_num_rows() == pow2(balanced_nu(tv))
        &&& layout.spec_stored_t() == trace_len
        &&& layout.spec_embedded_t() == pow2(s)
        &&& layout.spec_main_log_embedding() == main_log_embedding
    }

    /// The layout of an advice vector of length `len` in `context`: length rounded up
    /// to a power of two, balanced matrix, cycle-major.
    pub open spec fn spec_advice(layout: Self, context: DoryContext, len: nat) -> bool {
        let n = next_pow2(len);
        &&& layout.spec_context() == context
        &&& layout.spec_orientation() == DoryLayout::CycleMajor
        &&& layout.spec_k() == 1
        &&& layout.spec_num_columns() == pow2(balanced_sigma(ceil_log2(len)))
        &&& layout.spec_num_rows() == pow2(balanced_nu(ceil_log2(len)))
        &&& layout.spec_stored_t() == n
        &&& layout.spec_embedded_t() == n
        &&& layout.spec_main_log_embedding() == ceil_log2(len)
    }

    /// The main-matrix layout (see [`Self::spec_main`]).
    pub fn main(k: usize, trace_len: usize, main_log_embedding: usize, layout: DoryLayout) -> (r:
        Self)
        requires
            main_args_ok(k as nat, main_log_embedding as nat),
        ensures
            Self::spec_main(r, k as nat, trace_len as nat, main_log_embedding as nat, layout),
    {
        let log_k = log_2(k);
        let s = main_log_embedding.saturating_sub(log_k);
        let embedded_t = pow2_usize(s);
        proof {
            lemma_ceil_log2_pow2(s as nat);
            lemma_pow2_pos(s as nat);
            lemma_usize_bits();
            lemma_pow2_pos(balanced_sigma((log_k + s) as nat));
            lemma_pow2_pos(balanced_nu((log_k + s) as nat));
        }
        let log_t = log_2(embedded_t);
        let shape = DoryMatrixShape::balanced(log_k + log_t);
        DoryCommitmentLayout {
            context: DoryContext::Main,
            orientation: layout,
            k,
            shape,
            embedding: DoryEmbedding { stored_t: trace_len, embedded_t, main_log_embedding },
        }
    }

    /// The layout of an advice vector (see [`Self::spec_advice`]).
    pub fn advice(context: DoryContext, len: usize) -> (r: Self)
        requires
            context != DoryContext::Main,
            len <= usize::MAX / 2 + 1,
        ensures
            Self::spec_advice(r, context, len as nat),
    {
        let n = next_power_of_two(len);
        let n = if n >= 1 { n } else { 1 };
        let tv = log_2(n);
        proof {
            lemma_usize_bits();
            lemma_ceil_log2_pow2(ceil_log2(len as nat));
            lemma_pow2_adds(balanced_sigma(tv as nat), balanced_nu(tv as nat));
            lemma_pow2_pos(balanced_sigma(tv as nat));
            lemma_pow2_pos(balanced_nu(tv as nat));
            let a = pow2(balanced_sigma(tv as nat));
            let b = pow2(balanced_nu(tv as nat));
            assert(b * a == a * b) by (nonlinear_arith);
        }
        let shape = DoryMatrixShape::balanced(tv);
        DoryCommitmentLayout {
            context,
            orientation: DoryLayout::CycleMajor,
            k: 1,
            shape,
            embedding: DoryEmbedding { stored_t: n, embedded_t: n, main_log_embedding: tv },
        }
    }

    /// Balanced layout for committing a single standalone polynomial: a one-hot
    /// polynomial occupies its full `K x T`, any other is a flat `k = 1` vector whose
    /// length is rounded up to a power of two.
    pub fn for_polynomial(poly: &PolynomialShape, orientation: DoryLayout) -> (r: Self)
        requires
            poly matches PolynomialShape::OneHot { k, num_vars, .. } ==> main_args_ok(
                k as nat,
                num_vars as nat,
            ),
            poly matches PolynomialShape::Dense { original_len } ==> original_len <= usize::MAX
                / 2 + 1,
        ensures
            poly matches PolynomialShape::OneHot { k, nonzero_count, num_vars } ==> Self::spec_main(
                r,
                k as nat,
                nonzero_count as nat,
                num_vars as nat,
                orientation,
            ),
            poly matches PolynomialShape::Dense { original_len } ==> Self::spec_main(
                r,
                1,
                next_pow2(original_len as nat),
                ceil_log2(original_len as nat),
                orientation,
            ),
    {
        match poly {
            PolynomialShape::OneHot { k, nonzero_count, num_vars } => Self::main(
                *k,
                *nonzero_count,
                *num_vars,
                orientation,
            ),
            PolynomialShape::Dense { original_len } => {
                let len = next_power_of_two(*original_len);
                let len = if len >= 1 {
                    len
                } else {
                    1
                };
                let log_len = log_2(len);
                proof {
                    lemma_usize_bits();
                    lemma_ceil_log2_pow2(ceil_log2(*original_len as nat));
                    vstd::arithmetic::power2::lemma2_to64();
                    lemma_ceil_log2_bounds(*original_len as nat + 1);
                }
                Self::main(1, len, log_len, orientation)
            },
        }
    }

    /// `layout` is the layout of `context` under orientation `config`: the main-matrix
    /// layout for the main trace, the advice layout of its context otherwise.
    pub open spec fn spec_from_context(
        layout: Self,
        config: DoryLayout,
        context: CommitmentContext,
    ) -> bool {
        match context {
            CommitmentContext::MainTrace { k, trace_len, commitment_total_vars } => Self::spec_main(
                layout,
                k as nat,
                trace_len as nat,
                commitment_total_vars as nat,
                config,
            ),
            CommitmentContext::TrustedAdvice { len } => Self::spec_advice(
                layout,
                DoryContext::TrustedAdvice,
                len as nat,
            ),
            CommitmentContext::UntrustedAdvice { len } => Self::spec_advice(
                layout,
                DoryContext::UntrustedAdvice,
                len as nat,
            ),
        }
    }

    /// The layout for a commitment context under the configured orientation.
    pub fn from_context(config: &DoryLayout, context: CommitmentContext) -> (r: Self)
        requires
            context matches CommitmentContext::MainTrace { k, commitment_total_vars, .. }
                ==> main_args_ok(k as nat, commitment_total_vars as nat),
            context matches CommitmentContext::TrustedAdvice { len } ==> len <= usize::MAX / 2 + 1,
            context matches CommitmentContext::UntrustedAdvice { len } ==> len <= usize::MAX / 2
                + 1,
        ensures
            Self::spec_from_context(r, *config, context),
    {
        match context {
            CommitmentContext::MainTrace { k, trace_len, commitment_total_vars } => Self::main(
                k,
                trace_len,
                commitment_total_vars,
                *config,
            ),
            CommitmentContext::TrustedAdvice { len } => Self::advice(
                DoryContext::TrustedAdvice,
                len,
            ),
            CommitmentContext::UntrustedAdvice { len } => Self::advice(
                DoryContext::UntrustedAdvice,
                len,
            ),
        }
    }

    /// The context.
    pub fn context(self) -> (r: DoryContext)
        ensures
            r == self.spec_context(),
    {
        self.context
    }

    /// The orientation.
    pub fn orientation(self) -> (r: DoryLayout)
        ensures
            r == self.spec_orientation(),
    {
        self.orientation
    }

    /// `(num_rows, num_columns)`.
    pub fn matrix_shape(self) -> (r: (usize, usize))
        ensures
            r.0 == self.spec_num_rows(),
            r.1 == self.spec_num_columns(),
    {
        (self.shape.num_rows, self.shape.num_columns)
    }

    /// `(log2 num_columns, log2 num_rows)`.
    pub fn sigma_nu(self) -> (r: (usize, usize))
        ensures
            r.0 == ceil_log2(self.spec_num_columns()),
            r.1 == ceil_log2(self.spec_num_rows()),
    {
        proof {
            use_type_invariant(self);
        }
        self.shape.sigma_nu()
    }

    /// Columns of the matrix.
    pub fn num_columns(self) -> (r: usize)
        ensures
            r == self.spec_num_columns(),
    {
        self.shape.num_columns
    }

    /// Rows of the matrix.
    pub fn num_rows(self) -> (r: usize)
        ensures
            r == self.spec_num_rows(),
    {
        self.shape.num_rows
    }

    /// The stored cycle count.
    pub fn stored_t(self) -> (r: usize)
        ensures
            r == self.spec_stored_t(),
    {
        self.embedding.stored_t
    }

    /// The embedded cycle count.
    pub fn embedded_t(self) -> (r: usize)
        ensures
            r == self.spec_embedded_t(),
    {
        self.embedding.embedded_t
    }

    /// Addresses per cycle: the recorded `k` for the main matrix, otherwise
    /// `rows * columns / stored_t` (which is `1` for advice).
    pub fn k(self) -> (r: usize)
        ensures
            self.spec_context() == DoryContext::Main ==> r == self.spec_k(),
            self.spec_context() != DoryContext::Main ==> r == (self.spec_num_rows()
                * self.spec_num_columns()) / self.spec_stored_t() && r == 1,
            r > 0,
    {
        proof {
            use_type_invariant(self);
        }
        if self.context == DoryContext::Main {
            self.k
        } else {
            let total = self.shape.num_rows * self.shape.num_columns;
            proof {
                assert(total > 0) by (nonlinear_arith)
                    requires
                        total == self.shape.num_rows * self.shape.num_columns,
                        self.shape.num_rows > 0,
                        self.shape.num_columns > 0,
                ;
                vstd::arithmetic::div_mod::lemma_div_by_self(total as int);
            }
            total / self.embedding.stored_t
        }
    }

    /// The coefficient layout: shape, stored cycle count and whether it is cycle-major.
    pub fn coefficient_layout(self) -> (r: CoefficientLayout)
        ensures
            r.num_columns == self.spec_num_columns(),
            r.num_rows == self.spec_num_rows(),
            r.T == self.spec_stored_t(),
            r.cycle_major == (self.spec_orientation() == DoryLayout::CycleMajor),
    {
        CoefficientLayout {
            num_columns: self.shape.num_columns,
            num_rows: self.shape.num_rows,
            T: self.embedding.stored_t,
            cycle_major: self.orientation == DoryLayout::CycleMajor,
        }
    }

    /// Embedding variables beyond `log2 k + log2 stored_t`, clamped at zero.
    pub open spec fn spec_extra_vars(self) -> nat {
        saturating_diff(
            self.spec_main_log_embedding(),
            ceil_log2(self.spec_k()) + ceil_log2(self.spec_stored_t()),
        )
    }

    /// Whether strides apply: main matrix in address-major orientation.
    pub open spec fn strided(self) -> bool {
        self.spec_context() == DoryContext::Main && self.spec_orientation()
            == DoryLayout::AddressMajor
    }

    /// Column stride of one-hot embeddings: `2^(extra vars)` when strided, else `1`.
    pub fn one_hot_stride(self) -> (r: usize)
        requires
            self.strided() ==> self.spec_stored_t() > 0 && self.spec_extra_vars() < usize::BITS,
        ensures
            r == (if self.strided() {
                pow2(self.spec_extra_vars())
            } else {
                1
            }),
    {
        if self.context != DoryContext::Main || self.orientation != DoryLayout::AddressMajor {
            return 1;
        }
        pow2_usize(self.main_embedding_extra_vars())
    }

    /// Column stride of dense embeddings: `2^(extra vars + log2 k)` when strided, else `1`.
    pub fn dense_stride(self) -> (r: usize)
        requires
            self.strided() ==> self.spec_stored_t() > 0 && self.spec_extra_vars() + ceil_log2(
                self.spec_k(),
            ) < usize::BITS,
        ensures
            r == (if self.strided() {
                pow2(self.spec_extra_vars() + ceil_log2(self.spec_k()))
            } else {
                1
            }),
    {
        if self.context != DoryContext::Main || self.orientation != DoryLayout::AddressMajor {
            return 1;
        }
        proof {
            use_type_invariant(self);
        }
        let extra = self.main_embedding_extra_vars();
        let lk = log_2(self.k);
        pow2_usize(extra + lk)
    }

    /// Cycles per row in address-major orientation: `num_columns / k`; the columns must
    /// divide evenly among the addresses.
    pub fn address_major_cycles_per_row(self) -> (r: usize)
        requires
            self.spec_context() == DoryContext::Main ==> self.spec_num_columns() % self.spec_k()
                == 0,
        ensures
            self.spec_context() == DoryContext::Main ==> r == self.spec_num_columns()
                / self.spec_k(),
            self.spec_context() != DoryContext::Main ==> r == self.spec_num_columns(),
    {
        let k = self.k();
        self.shape.num_columns / k
    }

    fn main_embedding_extra_vars(self) -> (r: usize)
        requires
            self.spec_stored_t() > 0,
        ensures
            r == self.spec_extra_vars(),
    {
        proof {
            use_type_invariant(self);
            lemma_usize_bits();
        }
        let main_total_vars = log_2(self.k) + log_2(self.embedding.stored_t);
        self.embedding.main_log_embedding.saturating_sub(main_total_vars)
    }
}

impl CommitmentLayout for DoryCommitmentLayout {
    open spec fn supports(descriptor: LayoutDescriptor, public: LayoutPublicInputs) -> bool {
        dory_descriptor_accepted(descriptor.scheme_tag, descriptor.payload@) ==> public_inputs_ok(
            public,
        )
    }

    fn descriptor(&self) -> (r: LayoutDescriptor)
        ensures
            (r.scheme_tag, r.payload@) == spec_dory_descriptor(self.spec_orientation()),
    {
        let mut payload: Vec<u8> = Vec::new();
        payload.push(self.orientation.to_u8());
        proof {
            assert(payload@ =~= seq![byte_of_layout(self.spec_orientation())]);
        }
        LayoutDescriptor { scheme_tag: DORY_LAYOUT_SCHEME_TAG, payload }
    }

    /// Rebuilds the main-matrix layout from a descriptor carrying the orientation: the
    /// tag must be the Dory tag and the payload one byte `0` or `1`.
    fn validate_descriptor(descriptor: &LayoutDescriptor, public: &LayoutPublicInputs) -> (r:
        Result<Self, LayoutError>)
        ensures
            descriptor.scheme_tag != DORY_LAYOUT_SCHEME_TAG ==> r == Err::<Self, LayoutError>(
                LayoutError::SchemeTagMismatch {
                    expected: DORY_LAYOUT_SCHEME_TAG,
                    actual: descriptor.scheme_tag,
                },
            ),
            descriptor.scheme_tag == DORY_LAYOUT_SCHEME_TAG && !dory_descriptor_accepted(
                descriptor.scheme_tag,
                descriptor.payload@,
            ) ==> r == Err::<Self, LayoutError>(LayoutError::MalformedDescriptor),
            dory_descriptor_accepted(descriptor.scheme_tag, descriptor.payload@) ==> (r matches Ok(
                l,
            ) && Self::spec_main(
                l,
                pow2(public.log_k as nat),
                pow2(public.log_t as nat),
                public_main_log_embedding(*public),
                layout_of_byte(descriptor.payload@[0]),
            )),
    {
        if descriptor.scheme_tag != DORY_LAYOUT_SCHEME_TAG {
            return Err(
                LayoutError::SchemeTagMismatch {
                    expected: DORY_LAYOUT_SCHEME_TAG,
                    actual: descriptor.scheme_tag,
                },
            );
        }
        if descriptor.payload.len() != 1 {
            return Err(LayoutError::MalformedDescriptor);
        }
        let layout = descriptor.payload[0];
        if layout > 1 {
            return Err(LayoutError::MalformedDescriptor);
        }
        let main_log_embedding = match public.main_log_embedding {
            Some(e) => e,
            None => public.log_k + public.log_t,
        };
        let k = pow2_usize(public.log_k);
        let t = pow2_usize(public.log_t);
        Ok(Self::main(k, t, main_log_embedding, DoryLayout::from_u8(layout)))
    }
}

/// A layout's descriptor is accepted and rebuilds a layout with the same orientation.
pub proof fn lemma_descriptor_recovers_orientation(orientation: DoryLayout)
    ensures
        dory_descriptor_accepted(
            spec_dory_descriptor(orientation).0,
            spec_dory_descriptor(orientation).1,
        ),
        layout_of_byte(spec_dory_descriptor(orientation).1[0]) == orientation,
{
}

/// Layouts of different orientations have different descriptors.
pub proof fn lemma_descriptor_distinguishes_orientation(a: DoryLayout, b: DoryLayout)
    requires
        a != b,
    ensures
        spec_dory_descriptor(a) != spec_dory_descriptor(b),
{
    assert(spec_dory_descriptor(a).1[0] != spec_dory_descriptor(b).1[0]);
}

} // verus!
