//! The dense part of a random linear combination of polynomials, laid out as a
//! matrix for the Dory commitment, and its product with a row vector.
use crate::dory_globals::{spec_main_embedding_extra_vars, DoryContext, DoryGlobals, DoryLayout};
use crate::field::{fadd, fmul, views, Fr};
use crate::math::ceil_log2;
use vstd::arithmetic::power2::pow2;
use vstd::prelude::*;

verus! {

/// `a · b`, saturating at `usize::MAX`.
pub open spec fn saturating_product(a: nat, b: nat) -> nat {
    if a * b <= usize::MAX {
        a * b
    } else {
        usize::MAX as nat
    }
}

/// Cycle-major column `c`: `Σ_{i < m} d[c + i·cols] · left[i]` over the `i` whose index
/// `c + i·cols` lies inside `d`.
pub open spec fn cycle_major_column(d: Seq<int>, left: Seq<int>, cols: nat, c: nat, m: nat) -> int
    decreases m,
{
    if m == 0 {
        0
    } else if c + (m - 1) * cols < d.len() {
        fadd(
            cycle_major_column(d, left, cols, c, (m - 1) as nat),
            fmul(d[c + (m - 1) * cols], left[m - 1]),
        )
    } else {
        cycle_major_column(d, left, cols, c, (m - 1) as nat)
    }
}

/// Address-major column `c`: the sum over the cycles `t < n` placed at row
/// `t·stride / cols` (below `left.len()`) and column `t·stride mod cols == c` of
/// `d[t] · left[row]`, the product `t·stride` saturating.
pub open spec fn address_major_column(
    d: Seq<int>,
    left: Seq<int>,
    cols: nat,
    stride: nat,
    c: nat,
    n: nat,
) -> int
    decreases n,
{
    if n == 0 {
        0
    } else {
        let rest = address_major_column(d, left, cols, stride, c, (n - 1) as nat);
        let s = saturating_product((n - 1) as nat, stride);
        if s / cols < left.len() && s % cols == c {
            fadd(rest, fmul(d[n - 1], left[(s / cols) as int]))
        } else {
            rest
        }
    }
}

/// The stride of dense coefficients under the address-major layout (see
/// [`DoryGlobals::address_major_dense_stride`]).
pub open spec fn dense_stride(g: DoryGlobals) -> nat {
    if g.spec_context() == DoryContext::Main && g.spec_layout() == DoryLayout::AddressMajor {
        pow2(spec_main_embedding_extra_vars(g) + ceil_log2(g.spec_main_k().unwrap() as nat))
    } else {
        1
    }
}

/// The dense part of a random linear combination of polynomials.
pub struct RLCPolynomial {
    /// Random linear combination of the dense (length `T`) polynomials.
    pub dense_rlc: Vec<Fr>,
}

impl RLCPolynomial {
    /// Cycle-major column `c` of the product of `left_vec` with the dense matrix.
    fn cycle_major_entry(&self, left_vec: &[Fr], num_columns: usize, c: usize) -> (r: Fr)
        requires
            c < num_columns,
        ensures
            r@ == cycle_major_column(
                views(self.dense_rlc@),
                views(left_vec@),
                num_columns as nat,
                c as nat,
                left_vec.len() as nat,
            ),
    {
        let ghost d = views(self.dense_rlc@);
        let ghost left = views(left_vec@);
        let len = self.dense_rlc.len();
        let mut acc = Fr::zero();
        let mut in_range: bool = c < len;
        let mut idx: usize = c;
        let mut i: usize = 0;
        while i < left_vec.len()
            invariant
                d == views(self.dense_rlc@),
                left == views(left_vec@),
                len == self.dense_rlc.len(),
                c < num_columns,
                i <= left_vec.len(),
                in_range ==> idx == c + i * num_columns && idx < len,
                !in_range ==> c + i * num_columns >= len,
                acc@ == cycle_major_column(d, left, num_columns as nat, c as nat, i as nat),
            decreases left_vec.len() - i,
        {
            proof {
                assert((i + 1) * num_columns == i * num_columns + num_columns) by (nonlinear_arith);
            }
            if in_range {
                acc = acc.plus(&self.dense_rlc[idx].times(&left_vec[i]));
                if len - idx > num_columns {
                    idx = idx + num_columns;
                } else {
                    in_range = false;
                }
            }
            i = i + 1;
        }
        acc
    }

    /// The product `left_vec · M` of a row vector with the matrix of the dense
    /// coefficients, `num_columns` wide. Under the cycle-major layout coefficient `t`
    /// sits at row `t / num_columns`, column `t mod num_columns`; under the
    /// address-major layout at the position of `t · stride` instead, and coefficients
    /// whose row lies past `left_vec` are left out.
    pub fn vector_matrix_product(&self, globals: &DoryGlobals, left_vec: &[Fr]) -> (r: Vec<Fr>)
        requires
            globals.wf(),
            globals.current_dims().num_columns matches Some(n) && n > 0,
            globals.spec_context() == DoryContext::Main && globals.spec_layout()
                == DoryLayout::AddressMajor ==> {
                &&& globals.spec_main_k() is Some
                &&& globals.current_dims().t matches Some(t) && t > 0
                &&& globals.spec_main_log_embedding() == 0 ==> globals.dims(
                    DoryContext::Main,
                ).num_columns is Some && globals.dims(DoryContext::Main).max_num_rows is Some
                &&& spec_main_embedding_extra_vars(*globals) + ceil_log2(
                    globals.spec_main_k().unwrap() as nat,
                ) < usize::BITS
            },
        ensures
            r.len() == globals.current_dims().num_columns.unwrap(),
            forall|c: int|
                0 <= c < r.len() ==> #[trigger] r@[c]@ == (if globals.spec_layout()
                    == DoryLayout::CycleMajor {
                    cycle_major_column(
                        views(self.dense_rlc@),
                        views(left_vec@),
                        r.len() as nat,
                        c as nat,
                        left_vec.len() as nat,
                    )
                } else {
                    address_major_column(
                        views(self.dense_rlc@),
                        views(left_vec@),
                        r.len() as nat,
                        dense_stride(*globals),
                        c as nat,
                        self.dense_rlc.len() as nat,
                    )
                }),
    {
        let num_columns = globals.get_num_columns();
        let ghost d = views(self.dense_rlc@);
        let ghost left = views(left_vec@);
        match globals.get_layout() {
            DoryLayout::CycleMajor => {
                let mut result: Vec<Fr> = Vec::new();
                let mut c: usize = 0;
                while c < num_columns
                    invariant
                        c <= num_columns,
                        result.len() == c,
                        forall|q: int|
                            0 <= q < c ==> #[trigger] result@[q]@ == cycle_major_column(
                                d,
                                left,
                                num_columns as nat,
                                q as nat,
                                left_vec.len() as nat,
                            ),
                        d == views(self.dense_rlc@),
                        left == views(left_vec@),
                    decreases num_columns - c,
                {
                    let entry = self.cycle_major_entry(left_vec, num_columns, c);
                    result.push(entry);
                    c = c + 1;
                }
                result
            },
            DoryLayout::AddressMajor => {
                let stride = globals.address_major_dense_stride();
                let mut result: Vec<Fr> = Vec::new();
                let mut c: usize = 0;
                while c < num_columns
                    invariant
                        c <= num_columns,
                        result.len() == c,
                        forall|q: int| 0 <= q < c ==> #[trigger] result@[q]@ == 0,
                    decreases num_columns - c,
                {
                    result.push(Fr::zero());
                    c = c + 1;
                }
                let len = self.dense_rlc.len();
                let mut cycle: usize = 0;
                while cycle < len
                    invariant
                        d == views(self.dense_rlc@),
                        left == views(left_vec@),
                        len == self.dense_rlc.len(),
                        num_columns > 0,
                        cycle <= len,
                        result.len() == num_columns,
                        forall|q: int|
                            0 <= q < num_columns ==> #[trigger] result@[q]@ == address_major_column(
                                d,
                                left,
                                num_columns as nat,
                                stride as nat,
                                q as nat,
                                cycle as nat,
                            ),
                    decreases len - cycle,
                {
                    let scaled_index: usize = match cycle.checked_mul(stride) {
                        Some(v) => v,
                        None => usize::MAX,
                    };
                    proof {
                        assert(scaled_index == saturating_product(cycle as nat, stride as nat));
                    }
                    let row_index = scaled_index / num_columns;
                    let col_index = scaled_index % num_columns;
                    if row_index < left_vec.len() {
                        let updated = result[col_index].plus(
                            &self.dense_rlc[cycle].times(&left_vec[row_index]),
                        );
                        result.set(col_index, updated);
                        proof {
                            assert forall|q: int| 0 <= q < num_columns && q != col_index implies
                                #[trigger] result@[q]@ == address_major_column(
                                d,
                                left,
                                num_columns as nat,
                                stride as nat,
                                q as nat,
                                (cycle + 1) as nat,
                            ) by {}
                        }
                    } else {
                        proof {
                            assert forall|q: int| 0 <= q < num_columns implies #[trigger] result@[q]@
                                == address_major_column(
                                d,
                                left,
                                num_columns as nat,
                                stride as nat,
                                q as nat,
                                (cycle + 1) as nat,
                            ) by {}
                        }
                    }
                    cycle = cycle + 1;
                }
                result
            },
        }
    }
}

/// The matrix position of the one-hot entry of cycle `t` at address `k` under the
/// address-major layout: `t · dense_stride` (saturating) plus `k · column_stride`.
pub open spec fn one_hot_position(t: nat, k: nat, dense_stride: nat, column_stride: nat) -> nat {
    saturating_product(t, dense_stride) + k * column_stride
}

/// Column `c` of `coeff ·` (left vector times the matrix of a one-hot polynomial),
/// address-major: the sum over the cycles `t < n` that have an address `k`, whose
/// position lies in a row below `left.len()` and in column `c`, of `coeff · left[row]`.
pub open spec fn one_hot_column(
    nz: Seq<Option<u8>>,
    left: Seq<int>,
    coeff: int,
    cols: nat,
    dense_stride: nat,
    column_stride: nat,
    c: nat,
    n: nat,
) -> int
    decreases n,
{
    if n == 0 {
        0
    } else {
        let rest = one_hot_column(nz, left, coeff, cols, dense_stride, column_stride, c, (n - 1) as nat);
        match nz[n - 1] {
            Some(k) => {
                let s = one_hot_position((n - 1) as nat, k as nat, dense_stride, column_stride);
                if s / cols < left.len() && s % cols == c {
                    fadd(rest, fmul(coeff, left[(s / cols) as int]))
                } else {
                    rest
                }
            },
            None => rest,
        }
    }
}

/// The contribution of one one-hot polynomial, given by the address of each cycle
/// (`None` for a cycle with none), with coefficient `coeff`, to the product of
/// `left_vec` with the matrix under the address-major layout: cycle `t` with address `k`
/// sits at position `t · dense_stride + k · column_stride` of a matrix `num_columns`
/// wide, and entries whose row lies past `left_vec` are left out.
pub fn one_hot_address_major_product(
    nonzero_indices: &[Option<u8>],
    left_vec: &[Fr],
    coeff: Fr,
    num_columns: usize,
    dense_stride: usize,
    column_stride: usize,
) -> (r: Vec<Fr>)
    requires
        num_columns > 0,
        forall|t: int|
            0 <= t < nonzero_indices.len() && nonzero_indices@[t] is Some ==> #[trigger] one_hot_position(
                t as nat,
                nonzero_indices@[t].unwrap() as nat,
                dense_stride as nat,
                column_stride as nat,
            ) <= usize::MAX,
    ensures
        r.len() == num_columns,
        forall|c: int|
            0 <= c < num_columns ==> #[trigger] r@[c]@ == one_hot_column(
                nonzero_indices@,
                views(left_vec@),
                coeff@ as int,
                num_columns as nat,
                dense_stride as nat,
                column_stride as nat,
                c as nat,
                nonzero_indices.len() as nat,
            ),
{
    let ghost nz = nonzero_indices@;
    let ghost left = views(left_vec@);
    let mut result: Vec<Fr> = Vec::new();
    let mut c: usize = 0;
    while c < num_columns
        invariant
            c <= num_columns,
            result.len() == c,
            forall|q: int| 0 <= q < c ==> #[trigger] result@[q]@ == 0,
        decreases num_columns - c,
    {
        result.push(Fr::zero());
        c = c + 1;
    }
    let mut cycle: usize = 0;
    while cycle < nonzero_indices.len()
        invariant
            nz == nonzero_indices@,
            left == views(left_vec@),
            num_columns > 0,
            cycle <= nonzero_indices.len(),
            result.len() == num_columns,
            forall|t: int|
                0 <= t < nonzero_indices.len() && nonzero_indices@[t] is Some ==> #[trigger] one_hot_position(
                    t as nat,
                    nonzero_indices@[t].unwrap() as nat,
                    dense_stride as nat,
                    column_stride as nat,
                ) <= usize::MAX,
            forall|q: int|
                0 <= q < num_columns ==> #[trigger] result@[q]@ == one_hot_column(
                    nz,
                    left,
                    coeff@ as int,
                    num_columns as nat,
                    dense_stride as nat,
                    column_stride as nat,
                    q as nat,
                    cycle as nat,
                ),
        decreases nonzero_indices.len() - cycle,
    {
        match nonzero_indices[cycle] {
            Some(k) => {
                let scaled: usize = match cycle.checked_mul(dense_stride) {
                    Some(v) => v,
                    None => usize::MAX,
                };
                proof {
                    assert(scaled == saturating_product(cycle as nat, dense_stride as nat));
                    assert(nonzero_indices@[cycle as int] == Some(k));
                    let ghost ti: int = cycle as int;
                    assert(0 <= ti < nonzero_indices.len() && nonzero_indices@[ti] is Some);
                    assert(one_hot_position(
                        ti as nat,
                        nonzero_indices@[ti].unwrap() as nat,
                        dense_stride as nat,
                        column_stride as nat,
                    ) <= usize::MAX);
                    assert((k as nat) * (column_stride as nat) <= usize::MAX);
                }
                let offset = (k as usize) * column_stride;
                let scaled_index = scaled + offset;
                let row_index = scaled_index / num_columns;
                let col_index = scaled_index % num_columns;
                if row_index < left_vec.len() {
                    let updated = result[col_index].plus(&coeff.times(&left_vec[row_index]));
                    result.set(col_index, updated);
                }
            },
            None => {},
        }
        cycle = cycle + 1;
    }
    result
}

} // verus!
