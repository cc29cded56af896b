//! The equality polynomial `eq(r, x) = ∏ (r_i x_i + (1 - r_i)(1 - x_i))` and the table
//! of its evaluations over the Boolean hypercube.
//!
//! Indices are big-endian: the first coordinate of `r` pairs with the most significant
//! bit of the index, the last coordinate with the least significant bit.
use crate::field::{
    fmul, fsub, lemma_cong_ops, lemma_cong_residue, lemma_fmul_assoc, lemma_fmul_mod_right,
    lemma_fmul_one_minus, lemma_fops_range, lemma_modulus_large, pm, views, Fr,
};
use vstd::arithmetic::power2::{lemma_pow2_unfold, pow2};
use vstd::prelude::*;

verus! {

/// The factor of `eq` contributed by one coordinate `r` against the bit `bit`:
/// `r` when the bit is set, `1 - r` otherwise.
pub open spec fn eq_factor(r: int, bit: nat) -> int {
    if bit % 2 == 1 {
        r % pm()
    } else {
        fsub(1, r)
    }
}

/// `eq(r, bits(i))`, where the last coordinate of `r` meets the lowest bit of `i`.
pub open spec fn eq_eval(r: Seq<int>, i: nat) -> int
    decreases r.len(),
{
    if r.len() == 0 {
        1
    } else {
        fmul(eq_eval(r.drop_last(), i / 2), eq_factor(r.last(), i % 2))
    }
}

/// The table of `eq(r, x)` over `{0, 1}^|r|`, in index order.
pub open spec fn eq_table(r: Seq<int>) -> Seq<int> {
    Seq::new(pow2(r.len()), |i: int| eq_eval(r, i as nat))
}

/// The scaling factor of an optional scaling: the given element, or one.
pub open spec fn scale_of(scaling_factor: Option<Fr>) -> int {
    match scaling_factor {
        Some(c) => c@ as int,
        None => 1,
    }
}

/// Values of `eq` are field residues.
pub proof fn lemma_eq_eval_range(r: Seq<int>, i: nat)
    ensures
        0 <= eq_eval(r, i) < pm(),
    decreases r.len(),
{
    lemma_modulus_large();
    if r.len() > 0 {
        lemma_fops_range(eq_eval(r.drop_last(), i / 2), eq_factor(r.last(), i % 2));
    }
}

/// Extending `r` by one coordinate splits each entry of the table in two: index `2i`
/// takes the factor `1 - x`, index `2i + 1` the factor `x`.
pub proof fn lemma_eq_eval_extend(r: Seq<int>, x: int, i: nat)
    ensures
        eq_eval(r.push(x), 2 * i) == fmul(eq_eval(r, i), fsub(1, x)),
        eq_eval(r.push(x), 2 * i + 1) == fmul(eq_eval(r, i), x),
{
    assert(r.push(x).drop_last() =~= r);
    assert((2 * i) / 2 == i && (2 * i) % 2 == 0) by (nonlinear_arith);
    assert((2 * i + 1) / 2 == i && (2 * i + 1) % 2 == 1) by (nonlinear_arith);
    lemma_fmul_mod_right(eq_eval(r, i), x);
}

/// The equality polynomial.
pub struct EqPolynomial;

impl EqPolynomial {
    /// The table `eq(r, x)` for every `x` in `{0, 1}^n`, in index order.
    pub fn evals(r: &[Fr]) -> (res: Vec<Fr>)
        requires
            r.len() < usize::BITS,
        ensures
            res.len() == pow2(r.len() as nat),
            forall|i: int| 0 <= i < res.len() ==> #[trigger] res@[i]@ == eq_eval(views(r@), i as nat),
            views(res@) == eq_table(views(r@)),
    {
        let res = Self::evals_with_scaling(r, None);
        proof {
            assert forall|i: int| 0 <= i < res.len() implies #[trigger] res@[i]@ == eq_eval(
                views(r@),
                i as nat,
            ) by {
                let e = eq_eval(views(r@), i as nat);
                lemma_eq_eval_range(views(r@), i as nat);
                lemma_cong_ops(1, 1, e, e);
                lemma_cong_residue(e, 1 * e);
            }
            assert(views(res@) =~= eq_table(views(r@)));
        }
        res
    }

    /// The table `c · eq(r, x)` for every `x` in `{0, 1}^n`, where `c` is the scaling
    /// factor (one when absent).
    pub fn evals_with_scaling(r: &[Fr], scaling_factor: Option<Fr>) -> (res: Vec<Fr>)
        requires
            r.len() < usize::BITS,
        ensures
            res.len() == pow2(r.len() as nat),
            forall|i: int|
                0 <= i < res.len() ==> #[trigger] res@[i]@ == fmul(
                    scale_of(scaling_factor),
                    eq_eval(views(r@), i as nat),
                ),
    {
        let scale = match scaling_factor {
            Some(c) => c,
            None => Fr::one(),
        };
        let ghost s: int = scale_of(scaling_factor);
        let ghost rv: Seq<int> = views(r@);
        let mut cur: Vec<Fr> = Vec::new();
        cur.push(scale);
        proof {
            lemma_modulus_large();
            vstd::arithmetic::power2::lemma2_to64();
            assert(rv.take(0) =~= Seq::<int>::empty());
            lemma_cong_ops(s, s, 1, 1);
            assert(s * 1 == s);
            crate::field::lemma_fr_view_range(scale);
            lemma_cong_residue(s, s);
        }
        let n = r.len();
        let mut j: usize = 0;
        while j < n
            invariant
                n == r.len(),
                n < usize::BITS,
                j <= n,
                rv == views(r@),
                s == scale_of(scaling_factor),
                cur.len() == pow2(j as nat),
                forall|i: int|
                    0 <= i < cur.len() ==> #[trigger] cur@[i]@ == fmul(s, eq_eval(rv.take(j as int), i as nat)),
            decreases n - j,
        {
            let rj = r[j];
            let ghost prefix = rv.take(j as int);
            proof {
                assert(rv.take(j + 1) =~= prefix.push(rv[j as int]));
                assert(rv[j as int] == rj@);
                lemma_pow2_unfold((j + 1) as nat);
                vstd::arithmetic::power2::lemma_pow2_strictly_increases((j + 1) as nat, usize::BITS as nat);
                crate::math::lemma_usize_bits();
            }
            let mut next: Vec<Fr> = Vec::new();
            let mut i: usize = 0;
            while i < cur.len()
                invariant
                    0 <= i <= cur.len(),
                    cur.len() == pow2(j as nat),
                    2 * pow2(j as nat) <= usize::MAX,
                    next.len() == 2 * i,
                    rv.take(j + 1) =~= prefix.push(rj@ as int),
                    forall|t: int|
                        0 <= t < cur.len() ==> #[trigger] cur@[t]@ == fmul(s, eq_eval(prefix, t as nat)),
                    forall|t: int|
                        0 <= t < next.len() ==> #[trigger] next@[t]@ == fmul(
                            s,
                            eq_eval(rv.take(j + 1), t as nat),
                        ),
                decreases cur.len() - i,
            {
                let c = cur[i];
                let hi = c.times(&rj);
                let lo = c.minus(&hi);
                proof {
                    let e = eq_eval(prefix, i as nat);
                    lemma_eq_eval_extend(prefix, rj@ as int, i as nat);
                    lemma_fmul_one_minus(c@ as int, rj@ as int);
                    lemma_fmul_assoc(s, e, fsub(1, rj@ as int));
                    lemma_fmul_assoc(s, e, rj@ as int);
                }
                next.push(lo);
                next.push(hi);
                proof {
                    assert forall|t: int| 0 <= t < next.len() implies #[trigger] next@[t]@ == fmul(
                        s,
                        eq_eval(rv.take(j + 1), t as nat),
                    ) by {
                        if t == 2 * i {
                            assert(next@[t] == lo);
                        } else if t == 2 * i + 1 {
                            assert(next@[t] == hi);
                        }
                    }
                }
                i = i + 1;
            }
            cur = next;
            j = j + 1;
        }
        proof {
            assert(rv.take(n as int) =~= rv);
        }
        cur
    }
}

} // verus!
