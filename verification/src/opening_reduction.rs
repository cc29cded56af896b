//! The random linear combination that reduces many opening claims to one joint claim.
use crate::field::{
    cong, fadd, fmul, fsub, lemma_cong_ops, lemma_cong_residue, lemma_fr_view_range,
    lemma_modulus_large, lemma_residue, pm, views, Fr,
};
use crate::eq_poly::{eq_eval, lemma_eq_eval_range};
use crate::packed_opening::ProofVerifyError;
use crate::sumcheck::{batched_sum, degrees_within, ipow, mul_pow_2, verify_rounds};
use vstd::arithmetic::power2::pow2;
use vstd::prelude::*;

verus! {

/// `Σ_{i < k} claims[i] · γ^i` over the integers.
pub open spec fn rlc_sum(claims: Seq<int>, gamma: int, k: nat) -> int
    decreases k,
{
    if k == 0 {
        0
    } else {
        rlc_sum(claims, gamma, (k - 1) as nat) + claims[k - 1] * ipow(gamma, (k - 1) as nat)
    }
}

/// The joint claim `Σ_i γ^i · claims[i]` of a batch of openings combined with the
/// powers `1, γ, γ², ..` of the challenge `gamma`.
pub fn joint_claim(claims: &[Fr], gamma: Fr) -> (c: Fr)
    ensures
        c@ == rlc_sum(views(claims@), gamma@ as int, claims.len() as nat) % pm(),
{
    let ghost cv = views(claims@);
    let ghost g = gamma@ as int;
    proof {
        lemma_modulus_large();
    }
    let mut acc = Fr::zero();
    let mut power = Fr::one();
    let mut i: usize = 0;
    while i < claims.len()
        invariant
            i <= claims.len(),
            cv == views(claims@),
            g == gamma@ as int,
            cong(acc@ as int, rlc_sum(cv, g, i as nat)),
            cong(power@ as int, ipow(g, i as nat)),
        decreases claims.len() - i,
    {
        let ghost a = acc@ as int;
        let ghost p = power@ as int;
        let term = claims[i].times(&power);
        acc = acc.plus(&term);
        power = power.times(&gamma);
        proof {
            assert(cv[i as int] == claims@[i as int]@);
            lemma_cong_ops(cv[i as int], cv[i as int], p, ipow(g, i as nat));
            lemma_cong_ops(a, rlc_sum(cv, g, i as nat), term@ as int, cv[i as int] * ipow(g, i as nat));
            lemma_cong_ops(p, ipow(g, i as nat), g, g);
            assert(ipow(g, i as nat) * g == ipow(g, (i + 1) as nat)) by (nonlinear_arith)
                requires
                    ipow(g, (i + 1) as nat) == g * ipow(g, i as nat),
            ;
        }
        i = i + 1;
    }
    proof {
        lemma_fr_view_range(acc);
        lemma_cong_residue(acc@ as int, rlc_sum(cv, g, claims.len() as nat));
    }
    acc
}

/// `Σ gammas[t]` over the positions `t < k` holding `id`, accumulated in order.
pub open spec fn id_sum(ids: Seq<u64>, gammas: Seq<Fr>, id: u64, k: nat) -> int
    decreases k,
{
    if k == 0 {
        0
    } else if ids[k - 1] == id {
        fadd(id_sum(ids, gammas, id, (k - 1) as nat), gammas[k - 1]@ as int)
    } else {
        id_sum(ids, gammas, id, (k - 1) as nat)
    }
}

/// `id` occurs among the first `k` ids and is not the excluded one.
pub open spec fn id_included(ids: Seq<u64>, excluded: Option<u64>, id: u64, k: nat) -> bool {
    &&& excluded != Some(id)
    &&& exists|t: int| 0 <= t < k && ids[t] == id
}

/// An id not among the first `k` has sum zero.
proof fn lemma_id_sum_absent(ids: Seq<u64>, gammas: Seq<Fr>, id: u64, k: nat)
    requires
        forall|t: int| 0 <= t < k ==> ids[t] != id,
    ensures
        id_sum(ids, gammas, id, k) == 0,
    decreases k,
{
    if k > 0 {
        lemma_id_sum_absent(ids, gammas, id, (k - 1) as nat);
    }
}

/// The coefficients of the random linear combination of the opened polynomials: each
/// polynomial id (other than `excluded`) that occurs among the openings, once, in
/// increasing order of id, with the sum of the powers of `γ` at the positions where it
/// occurs. Openings past the end of `gamma_powers` are left out.
pub fn rlc_coefficients(poly_ids: &[u64], gamma_powers: &[Fr], excluded: Option<u64>) -> (r: Vec<(u64, Fr)>)
    ensures
        ({
            let n = if poly_ids.len() <= gamma_powers.len() {
                poly_ids.len() as nat
            } else {
                gamma_powers.len() as nat
            };
            &&& forall|a: int, b: int| 0 <= a < b < r.len() ==> r@[a].0 < r@[b].0
            &&& forall|t: int|
                0 <= t < r.len() ==> id_included(poly_ids@, excluded, #[trigger] r@[t].0, n)
                    && r@[t].1@ == id_sum(poly_ids@, gamma_powers@, r@[t].0, n)
            &&& forall|k: int|
                0 <= k < n && excluded != Some(poly_ids@[k]) ==> exists|t: int|
                    0 <= t < r.len() && #[trigger] r@[t].0 == poly_ids@[k]
        }),
{
    let n = if poly_ids.len() <= gamma_powers.len() {
        poly_ids.len()
    } else {
        gamma_powers.len()
    };
    proof {
        lemma_modulus_large();
    }
    let mut r: Vec<(u64, Fr)> = Vec::new();
    let mut k: usize = 0;
    while k < n
        invariant
            n <= poly_ids.len(),
            n <= gamma_powers.len(),
            k <= n,
            forall|a: int, b: int| 0 <= a < b < r.len() ==> r@[a].0 < r@[b].0,
            forall|t: int|
                0 <= t < r.len() ==> id_included(poly_ids@, excluded, #[trigger] r@[t].0, k as nat)
                    && r@[t].1@ == id_sum(poly_ids@, gamma_powers@, r@[t].0, k as nat),
            forall|q: int|
                0 <= q < k && excluded != Some(poly_ids@[q]) ==> exists|t: int|
                    0 <= t < r.len() && #[trigger] r@[t].0 == poly_ids@[q],
        decreases n - k,
    {
        let id = poly_ids[k];
        let g = gamma_powers[k];
        let skip = match excluded {
            Some(e) => e == id,
            None => false,
        };
        let ghost old_r = r@;
        if !skip {
            let mut p: usize = 0;
            while p < r.len() && r[p].0 < id
                invariant
                    p <= r.len(),
                    forall|t: int| 0 <= t < p ==> r@[t].0 < id,
                decreases r.len() - p,
            {
                p = p + 1;
            }
            if p < r.len() && r[p].0 == id {
                let updated = (id, r[p].1.plus(&g));
                r.set(p, updated);
                proof {
                    assert forall|t: int| 0 <= t < r.len() implies id_included(poly_ids@, excluded, #[trigger] r@[t].0, (k + 1) as nat)
                        && r@[t].1@ == id_sum(poly_ids@, gamma_powers@, r@[t].0, (k + 1) as nat) by {
                        if t != p {
                            assert(old_r[t].0 != id) by {
                                if old_r[t].0 == id {
                                    if t < p {
                                    } else {
                                        assert(old_r[p as int].0 < old_r[t].0);
                                    }
                                }
                            }
                        }
                        let w = choose|w: int| 0 <= w < k && poly_ids@[w] == old_r[t].0;
                        assert(0 <= w < k + 1 && poly_ids@[w] == r@[t].0);
                    }
                    assert forall|q: int| 0 <= q < k + 1 && excluded != Some(poly_ids@[q]) implies exists|t: int|
                        0 <= t < r.len() && #[trigger] r@[t].0 == poly_ids@[q] by {
                        if q < k {
                            let t = choose|t: int| 0 <= t < old_r.len() && #[trigger] old_r[t].0 == poly_ids@[q];
                            assert(r@[t].0 == poly_ids@[q]);
                        } else {
                            assert(r@[p as int].0 == poly_ids@[q]);
                        }
                    }
                }
            } else {
                proof {
                    assert forall|q: int| 0 <= q < k implies poly_ids@[q] != id by {
                        if poly_ids@[q] == id {
                            let t = choose|t: int| 0 <= t < old_r.len() && #[trigger] old_r[t].0 == poly_ids@[q];
                            if t < p {
                            } else if t == p {
                            } else {
                                assert(old_r[p as int].0 < old_r[t].0);
                            }
                        }
                    }
                    lemma_id_sum_absent(poly_ids@, gamma_powers@, id, k as nat);
                    lemma_fr_view_range(g);
                    lemma_residue(g@ as int);
                }
                r.insert(p, (id, g));
                proof {
                    old_r.insert_ensures(p as int, (id, g));
                    assert forall|a: int, b: int| 0 <= a < b < r.len() implies r@[a].0 < r@[b].0 by {
                        if b < p {
                        } else if b == p {
                        } else if a < p {
                            assert(r@[b] == old_r[b - 1]);
                            if p < old_r.len() {
                                assert(old_r[p as int].0 >= id);
                                assert(old_r[p as int].0 != id);
                            }
                        } else if a == p {
                            assert(r@[b] == old_r[b - 1]);
                            assert(old_r[p as int].0 > id);
                            if b - 1 > p {
                                assert(old_r[p as int].0 < old_r[b - 1].0);
                            }
                        } else {
                            assert(r@[a] == old_r[a - 1]);
                            assert(r@[b] == old_r[b - 1]);
                        }
                    }
                    assert forall|t: int| 0 <= t < r.len() implies id_included(poly_ids@, excluded, #[trigger] r@[t].0, (k + 1) as nat)
                        && r@[t].1@ == id_sum(poly_ids@, gamma_powers@, r@[t].0, (k + 1) as nat) by {
                        if t == p {
                            assert(0 <= k < k + 1 && poly_ids@[k as int] == id);
                        } else {
                            let o = if t < p { t } else { t - 1 };
                            assert(r@[t] == old_r[o]);
                            assert(old_r[o].0 != id) by {
                                if old_r[o].0 == id {
                                    let w = choose|w: int| 0 <= w < k && poly_ids@[w] == old_r[o].0;
                                    assert(poly_ids@[w] != id);
                                }
                            }
                            let w = choose|w: int| 0 <= w < k && poly_ids@[w] == old_r[o].0;
                            assert(0 <= w < k + 1 && poly_ids@[w] == r@[t].0);
                        }
                    }
                    assert forall|q: int| 0 <= q < k + 1 && excluded != Some(poly_ids@[q]) implies exists|t: int|
                        0 <= t < r.len() && #[trigger] r@[t].0 == poly_ids@[q] by {
                        if q < k {
                            let t = choose|t: int| 0 <= t < old_r.len() && #[trigger] old_r[t].0 == poly_ids@[q];
                            if t < p {
                                assert(r@[t].0 == poly_ids@[q]);
                            } else {
                                assert(r@[t + 1].0 == poly_ids@[q]);
                            }
                        } else {
                            assert(r@[p as int].0 == poly_ids@[q]);
                        }
                    }
                }
            }
        } else {
            proof {
                assert forall|t: int| 0 <= t < r.len() implies id_included(poly_ids@, excluded, #[trigger] r@[t].0, (k + 1) as nat)
                    && r@[t].1@ == id_sum(poly_ids@, gamma_powers@, r@[t].0, (k + 1) as nat) by {
                    assert(r@[t].0 != id);
                    let w = choose|w: int| 0 <= w < k && poly_ids@[w] == r@[t].0;
                    assert(0 <= w < k + 1 && poly_ids@[w] == r@[t].0);
                }
            }
        }
        k = k + 1;
    }
    r
}

/// The opening point of the reduced opening from the sumcheck's challenges: the first
/// `log_K = r.len() - log_t` challenges reversed, then the last `log_t` reversed.
pub fn opening_point_from_sumcheck(r: &[Fr], log_t: usize) -> (p: Vec<Fr>)
    requires
        log_t <= r.len(),
    ensures
        p@ == Seq::new(
            r.len() as nat,
            |t: int|
                if t < r.len() - log_t {
                    r@[r.len() - log_t - 1 - t]
                } else {
                    r@[r.len() - 1 - (t - (r.len() - log_t))]
                },
        ),
{
    let log_k = r.len() - log_t;
    let mut p: Vec<Fr> = Vec::new();
    let mut t: usize = 0;
    while t < r.len()
        invariant
            log_k == r.len() - log_t,
            t <= r.len(),
            p.len() == t,
            forall|q: int|
                0 <= q < t ==> #[trigger] p@[q] == (if q < log_k {
                    r@[log_k - 1 - q]
                } else {
                    r@[r.len() - 1 - (q - log_k)]
                }),
        decreases r.len() - t,
    {
        if t < log_k {
            p.push(r[log_k - 1 - t]);
        } else {
            p.push(r[r.len() - 1 - (t - log_k)]);
        }
        t = t + 1;
    }
    proof {
        assert(p@ =~= Seq::new(
            r.len() as nat,
            |q: int|
                if q < r.len() - log_t {
                    r@[r.len() - log_t - 1 - q]
                } else {
                    r@[r.len() - 1 - (q - (r.len() - log_t))]
                },
        ));
    }
    p
}

/// The largest of the first `k` entries (0 for none).
pub open spec fn seq_max(s: Seq<usize>, k: nat) -> nat
    decreases k,
{
    if k == 0 {
        0
    } else if seq_max(s, (k - 1) as nat) >= s[k - 1] {
        seq_max(s, (k - 1) as nat)
    } else {
        s[k - 1] as nat
    }
}

proof fn lemma_seq_max_bound(s: Seq<usize>, k: nat)
    requires
        k <= s.len(),
    ensures
        forall|i: int| 0 <= i < k ==> #[trigger] s[i] <= seq_max(s, k),
        seq_max(s, k) <= usize::MAX,
    decreases k,
{
    if k > 0 {
        lemma_seq_max_bound(s, (k - 1) as nat);
    }
}

/// The most rounds any instance has.
pub fn max_num_rounds(num_rounds: &[usize]) -> (r: usize)
    ensures
        r == seq_max(num_rounds@, num_rounds.len() as nat),
        forall|i: int| 0 <= i < num_rounds.len() ==> #[trigger] num_rounds@[i] <= r,
{
    proof {
        lemma_seq_max_bound(num_rounds@, num_rounds.len() as nat);
    }
    let mut m: usize = 0;
    let mut i: usize = 0;
    while i < num_rounds.len()
        invariant
            i <= num_rounds.len(),
            m == seq_max(num_rounds@, i as nat),
        decreases num_rounds.len() - i,
    {
        if m < num_rounds[i] {
            m = num_rounds[i];
        }
        i = i + 1;
    }
    m
}

/// The input claims scaled to the batch: instance `i`'s claim times `2^(max - n_i)`.
pub open spec fn scaled_claims(input_claims: Seq<Fr>, num_rounds: Seq<usize>, max: nat) -> Seq<int> {
    Seq::new(
        input_claims.len(),
        |i: int| fmul(input_claims[i]@ as int, pow2((max - num_rounds[i]) as nat) as int),
    )
}

/// The claim of a front-loaded batched sumcheck: `Σ_i coeffs[i] · 2^(max - n_i) ·
/// input_claims[i]`, over the instances that have a coefficient.
pub fn batched_input_claim(input_claims: &[Fr], num_rounds: &[usize], coeffs: &[Fr], max: usize) -> (c: Fr)
    requires
        input_claims.len() == num_rounds.len(),
        forall|i: int| 0 <= i < num_rounds.len() ==> #[trigger] num_rounds@[i] <= max,
    ensures
        c@ == batched_sum(
            scaled_claims(input_claims@, num_rounds@, max as nat),
            views(coeffs@),
            if input_claims.len() <= coeffs.len() {
                input_claims.len() as nat
            } else {
                coeffs.len() as nat
            },
        ),
{
    let m = if input_claims.len() <= coeffs.len() {
        input_claims.len()
    } else {
        coeffs.len()
    };
    let ghost v = scaled_claims(input_claims@, num_rounds@, max as nat);
    let mut acc = Fr::zero();
    let mut i: usize = 0;
    while i < m
        invariant
            m <= input_claims.len(),
            m <= coeffs.len(),
            input_claims.len() == num_rounds.len(),
            forall|k: int| 0 <= k < num_rounds.len() ==> #[trigger] num_rounds@[k] <= max,
            v == scaled_claims(input_claims@, num_rounds@, max as nat),
            i <= m,
            acc@ == batched_sum(v, views(coeffs@), i as nat),
        decreases m - i,
    {
        let scaled = mul_pow_2(input_claims[i], max - num_rounds[i]);
        acc = acc.plus(&scaled.times(&coeffs[i]));
        i = i + 1;
    }
    acc
}

/// `Π_{lo <= t < hi} (1 - r[t])` in the field.
pub open spec fn prod_one_minus(r: Seq<Fr>, lo: int, hi: int) -> int
    decreases hi - lo,
{
    if hi <= lo {
        1
    } else {
        fmul(prod_one_minus(r, lo, hi - 1), fsub(1, r[hi - 1]@ as int))
    }
}

/// Where the trusted-advice opening sits among the openings and the matrix shape it is
/// embedded in: the main matrix's row variables, and the advice matrix's row and
/// column variables.
#[derive(Clone, Copy, Debug, PartialEq, Eq, Structural)]
pub struct TrustedAdviceShape {
    pub index: usize,
    pub main_rows: usize,
    pub advice_rows: usize,
    pub advice_columns: usize,
}

/// The factor by which opening `i`'s claim enters the joint claim at the point `r`: the
/// product of `1 - r_t` over the variables the opening does not depend on. For an
/// ordinary opening with `n_i` variables these are the first `max - n_i`; for the
/// trusted advice, the row and column variables of the main matrix above the advice
/// matrix's.
pub open spec fn opening_weight(
    r: Seq<Fr>,
    max: nat,
    n: nat,
    i: int,
    ta: Option<TrustedAdviceShape>,
) -> int {
    match ta {
        Some(shape) if shape.index == i => fmul(
            prod_one_minus(r, 0, shape.main_rows - shape.advice_rows),
            prod_one_minus(r, shape.main_rows as int, r.len() - shape.advice_columns),
        ),
        _ => prod_one_minus(r, 0, max - n),
    }
}

/// `Σ_{i < m} γ_i · claims[i] · weight_i`, accumulated in order.
pub open spec fn weighted_joint_claim(
    gammas: Seq<Fr>,
    claims: Seq<Fr>,
    num_rounds: Seq<usize>,
    r: Seq<Fr>,
    ta: Option<TrustedAdviceShape>,
    m: nat,
) -> int
    decreases m,
{
    if m == 0 {
        0
    } else {
        fadd(
            weighted_joint_claim(gammas, claims, num_rounds, r, ta, (m - 1) as nat),
            fmul(
                fmul(gammas[m - 1]@ as int, claims[m - 1]@ as int),
                opening_weight(r, seq_max(num_rounds, num_rounds.len()), num_rounds[m - 1] as nat, m - 1, ta),
            ),
        )
    }
}

/// What the trusted-advice shape needs of the point: its variables fit.
pub open spec fn advice_shape_fits(ta: Option<TrustedAdviceShape>, len: nat) -> bool {
    match ta {
        Some(s) => s.advice_rows <= s.main_rows <= len && s.advice_columns <= len - s.main_rows,
        None => true,
    }
}

/// `Π_{lo <= t < hi} (1 - r[t])`.
fn product_one_minus(r: &[Fr], lo: usize, hi: usize) -> (p: Fr)
    requires
        lo <= hi <= r.len(),
    ensures
        p@ == prod_one_minus(r@, lo as int, hi as int),
{
    proof {
        lemma_modulus_large();
        lemma_residue(1);
    }
    let one = Fr::one();
    let mut p = Fr::one();
    let mut t = lo;
    while t < hi
        invariant
            lo <= t <= hi <= r.len(),
            one@ == 1,
            p@ == prod_one_minus(r@, lo as int, t as int),
        decreases hi - t,
    {
        p = p.times(&one.minus(&r[t]));
        t = t + 1;
    }
    p
}

/// The joint claim of the reduced opening as the verifier computes it: the sum over the
/// openings of `γ_i · claims[i]` times the opening's weight at the point `r` (see
/// [`opening_weight`]). Openings past the end of `gamma_powers`, `claims` or
/// `num_rounds` are left out.
pub fn verifier_joint_claim(
    gamma_powers: &[Fr],
    claims: &[Fr],
    num_rounds: &[usize],
    r: &[Fr],
    trusted_advice: Option<TrustedAdviceShape>,
) -> (c: Fr)
    requires
        seq_max(num_rounds@, num_rounds.len() as nat) <= r.len(),
        advice_shape_fits(trusted_advice, r.len() as nat),
    ensures
        c@ == weighted_joint_claim(
            gamma_powers@,
            claims@,
            num_rounds@,
            r@,
            trusted_advice,
            min3(gamma_powers.len() as nat, claims.len() as nat, num_rounds.len() as nat),
        ),
{
    let max = max_num_rounds(num_rounds);
    let mut m = gamma_powers.len();
    if claims.len() < m {
        m = claims.len();
    }
    if num_rounds.len() < m {
        m = num_rounds.len();
    }
    let mut acc = Fr::zero();
    let mut i: usize = 0;
    while i < m
        invariant
            m == min3(gamma_powers.len() as nat, claims.len() as nat, num_rounds.len() as nat),
            max == seq_max(num_rounds@, num_rounds.len() as nat),
            forall|k: int| 0 <= k < num_rounds.len() ==> #[trigger] num_rounds@[k] <= max,
            max <= r.len(),
            advice_shape_fits(trusted_advice, r.len() as nat),
            i <= m,
            acc@ == weighted_joint_claim(gamma_powers@, claims@, num_rounds@, r@, trusted_advice, i as nat),
        decreases m - i,
    {
        let weight = match trusted_advice {
            Some(shape) => {
                if shape.index == i {
                    let rows = product_one_minus(r, 0, shape.main_rows - shape.advice_rows);
                    let cols = product_one_minus(r, shape.main_rows, r.len() - shape.advice_columns);
                    rows.times(&cols)
                } else {
                    product_one_minus(r, 0, max - num_rounds[i])
                }
            },
            None => product_one_minus(r, 0, max - num_rounds[i]),
        };
        acc = acc.plus(&gamma_powers[i].times(&claims[i]).times(&weight));
        i = i + 1;
    }
    acc
}

/// The least of three numbers.
pub open spec fn min3(a: nat, b: nat, c: nat) -> nat {
    if a <= b && a <= c {
        a
    } else if b <= c {
        b
    } else {
        c
    }
}

/// The reduced opening the verifier checks, from the batched sumcheck's proof and the
/// values the transcript supplied (the batching coefficients, the round challenges and
/// the powers of `γ`): the sumcheck rounds are verified from the batched input claim
/// (see [`verify_rounds`], whose errors it returns), and on success it returns the
/// opening point (see [`opening_point_from_sumcheck`]) and the joint claim the joint
/// opening must meet there (see [`verifier_joint_claim`]).
pub fn reduce_and_verify_rounds(
    polys: &Vec<Vec<Fr>>,
    input_claims: &[Fr],
    num_rounds: &[usize],
    batching_coeffs: &[Fr],
    degree_bound: usize,
    challenges: &[Fr],
    log_t: usize,
    sumcheck_claims: &[Fr],
    gamma_powers: &[Fr],
    trusted_advice: Option<TrustedAdviceShape>,
) -> (res: Result<(Vec<Fr>, Fr), ProofVerifyError>)
    requires
        input_claims.len() == num_rounds.len(),
        polys.len() == seq_max(num_rounds@, num_rounds.len() as nat),
        challenges.len() == polys.len(),
        forall|i: int|
            0 <= i < polys.len() && degrees_within(polys@, degree_bound as nat, i + 1)
                ==> #[trigger] polys@[i].len() >= 1,
        log_t <= polys.len(),
        advice_shape_fits(trusted_advice, polys.len() as nat),
    ensures
        res is Ok <==> degrees_within(polys@, degree_bound as nat, polys.len() as int),
        res matches Err(e) ==> exists|i: int|
            0 <= i < polys.len() && degrees_within(polys@, degree_bound as nat, i)
                && #[trigger] polys@[i].len() > degree_bound && e == ProofVerifyError::InvalidInputLength(
                degree_bound,
                polys@[i].len(),
            ),
        res matches Ok((p, j)) ==> {
            let n = challenges.len() as int;
            &&& p@ == Seq::new(
                challenges.len() as nat,
                |t: int|
                    if t < n - log_t {
                        challenges@[n - log_t - 1 - t]
                    } else {
                        challenges@[n - 1 - (t - (n - log_t))]
                    },
            )
            &&& j@ == weighted_joint_claim(
                gamma_powers@,
                sumcheck_claims@,
                num_rounds@,
                p@,
                trusted_advice,
                min3(gamma_powers.len() as nat, sumcheck_claims.len() as nat, num_rounds.len() as nat),
            )
        },
{
    let max = max_num_rounds(num_rounds);
    let claim = batched_input_claim(input_claims, num_rounds, batching_coeffs, max);
    match verify_rounds(polys, claim, degree_bound, challenges) {
        Err(e) => Err(e),
        Ok((_, r)) => {
            let point = opening_point_from_sumcheck(r.as_slice(), log_t);
            let joint = verifier_joint_claim(gamma_powers, sumcheck_claims, num_rounds, point.as_slice(), trusted_advice);
            Ok((point, joint))
        },
    }
}

/// The prover's side of reducing the openings to one, after the batched sumcheck: the
/// opening point from the sumcheck's challenges (see [`opening_point_from_sumcheck`]),
/// the coefficient of each polynomial in the combined polynomial (see
/// [`rlc_coefficients`]; the trusted advice, `trusted_advice_id`, is combined
/// separately), and the joint evaluation the combined polynomial takes at the point (see
/// [`verifier_joint_claim`], the same sum on the prover's side).
pub fn reduce_and_prove_claims(
    r_sumcheck: &[Fr],
    log_t: usize,
    poly_ids: &[u64],
    gamma_powers: &[Fr],
    sumcheck_claims: &[Fr],
    num_rounds: &[usize],
    trusted_advice_id: Option<u64>,
    trusted_advice: Option<TrustedAdviceShape>,
) -> (r: (Vec<Fr>, Vec<(u64, Fr)>, Fr))
    requires
        log_t <= r_sumcheck.len(),
        seq_max(num_rounds@, num_rounds.len() as nat) <= r_sumcheck.len(),
        advice_shape_fits(trusted_advice, r_sumcheck.len() as nat),
    ensures
        ({
            let n = r_sumcheck.len() as int;
            let m = if poly_ids.len() <= gamma_powers.len() {
                poly_ids.len() as nat
            } else {
                gamma_powers.len() as nat
            };
            &&& r.0@ == Seq::new(
                r_sumcheck.len() as nat,
                |t: int|
                    if t < n - log_t {
                        r_sumcheck@[n - log_t - 1 - t]
                    } else {
                        r_sumcheck@[n - 1 - (t - (n - log_t))]
                    },
            )
            &&& forall|a: int, b: int| 0 <= a < b < r.1.len() ==> r.1@[a].0 < r.1@[b].0
            &&& forall|t: int|
                0 <= t < r.1.len() ==> id_included(poly_ids@, trusted_advice_id, #[trigger] r.1@[t].0, m)
                    && r.1@[t].1@ == id_sum(poly_ids@, gamma_powers@, r.1@[t].0, m)
            &&& forall|k: int|
                0 <= k < m && trusted_advice_id != Some(poly_ids@[k]) ==> exists|t: int|
                    0 <= t < r.1.len() && #[trigger] r.1@[t].0 == poly_ids@[k]
            &&& r.2@ == weighted_joint_claim(
                gamma_powers@,
                sumcheck_claims@,
                num_rounds@,
                r.0@,
                trusted_advice,
                min3(gamma_powers.len() as nat, sumcheck_claims.len() as nat, num_rounds.len() as nat),
            )
        }),
{
    let point = opening_point_from_sumcheck(r_sumcheck, log_t);
    let coeffs = rlc_coefficients(poly_ids, gamma_powers, trusted_advice_id);
    let joint = verifier_joint_claim(gamma_powers, sumcheck_claims, num_rounds, point.as_slice(), trusted_advice);
    (point, coeffs, joint)
}

/// `eq(s, 0)`, the product of `1 - s_t`, taken from the point's field elements.
pub open spec fn eq_at_zero(s: Seq<Fr>) -> int {
    eq_eval(views(s), 0)
}

/// The product of `1 - r_t` over a range is `eq` of that part of the point at 0.
proof fn lemma_prod_is_eq_at_zero(r: Seq<Fr>, lo: int, hi: int)
    requires
        0 <= lo <= hi <= r.len(),
    ensures
        prod_one_minus(r, lo, hi) == eq_at_zero(r.subrange(lo, hi)),
    decreases hi - lo,
{
    lemma_modulus_large();
    let s = views(r.subrange(lo, hi));
    if hi == lo {
        assert(s.len() == 0);
    } else {
        lemma_prod_is_eq_at_zero(r, lo, hi - 1);
        assert(s.drop_last() =~= views(r.subrange(lo, hi - 1)));
        assert(s.last() == r[hi - 1]@);
        assert(0nat / 2 == 0 && 0nat % 2 == 0);
    }
}

/// `eq(a · b, 0) = eq(a, 0) · eq(b, 0)`.
proof fn lemma_eq_at_zero_concat(a: Seq<Fr>, b: Seq<Fr>)
    ensures
        eq_at_zero(a + b) == fmul(eq_at_zero(a), eq_at_zero(b)),
    decreases b.len(),
{
    lemma_modulus_large();
    lemma_eq_eval_range(views(a), 0);
    assert(0nat / 2 == 0 && 0nat % 2 == 0);
    if b.len() == 0 {
        assert(a + b =~= a);
        assert(views(b).len() == 0);
        lemma_residue(eq_at_zero(a));
    } else {
        let bd = b.drop_last();
        lemma_eq_at_zero_concat(a, bd);
        assert(views(a + b).drop_last() =~= views(a + bd));
        assert(views(b).drop_last() =~= views(bd));
        assert(views(a + b).last() == views(b).last());
        crate::field::lemma_fmul_assoc(eq_at_zero(a), eq_at_zero(bd), fsub(1, views(b).last()));
    }
}

/// Whether position `t` of the point is one of the trusted advice's own variables: the
/// last `advice_rows` of the main matrix's row variables, and the last
/// `advice_columns` of its column variables.
pub open spec fn advice_position(shape: TrustedAdviceShape, len: nat, t: int) -> bool {
    ||| shape.main_rows - shape.advice_rows <= t < shape.main_rows
    ||| len - shape.advice_columns <= t < len
}

/// The trusted advice's own point: its row variables, then its column variables.
pub open spec fn advice_point(r: Seq<Fr>, shape: TrustedAdviceShape) -> Seq<Fr> {
    r.subrange(shape.main_rows - shape.advice_rows, shape.main_rows as int) + r.subrange(
        r.len() - shape.advice_columns,
        r.len() as int,
    )
}

/// Weights agree on points that agree on the positions they read.
proof fn lemma_prod_agree(r: Seq<Fr>, r2: Seq<Fr>, lo: int, hi: int)
    requires
        0 <= lo <= hi <= r.len(),
        r.len() == r2.len(),
        forall|t: int| lo <= t < hi ==> r[t]@ == r2[t]@,
    ensures
        prod_one_minus(r, lo, hi) == prod_one_minus(r2, lo, hi),
    decreases hi - lo,
{
    if hi > lo {
        lemma_prod_agree(r, r2, lo, hi - 1);
    }
}

/// The trusted advice's weight is the factor of the zero-padded embedding of the advice
/// matrix in the main matrix outside the advice's own variables: the weight times
/// `eq(advice point, 0)` is `eq(whole point, 0)`, and the weight does not depend on the
/// advice's own variables.
pub proof fn lemma_advice_weight_law(r: Seq<Fr>, r2: Seq<Fr>, max: nat, n: nat, shape: TrustedAdviceShape)
    requires
        advice_shape_fits(Some(shape), r.len()),
        r2.len() == r.len(),
        forall|t: int| 0 <= t < r.len() && !advice_position(shape, r.len(), t) ==> r[t]@ == r2[t]@,
    ensures
        fmul(opening_weight(r, max, n, shape.index as int, Some(shape)), eq_at_zero(advice_point(r, shape)))
            == eq_at_zero(r),
        opening_weight(r, max, n, shape.index as int, Some(shape)) == opening_weight(
            r2,
            max,
            n,
            shape.index as int,
            Some(shape),
        ),
{
    let len = r.len() as int;
    let a = shape.main_rows - shape.advice_rows;
    let m = shape.main_rows as int;
    let c = len - shape.advice_columns;
    lemma_prod_is_eq_at_zero(r, 0, a);
    lemma_prod_is_eq_at_zero(r, m, c);
    let r1 = r.subrange(0, a);
    let q2 = r.subrange(a, m);
    let r3 = r.subrange(m, c);
    let q4 = r.subrange(c, len);
    assert(advice_point(r, shape) =~= q2 + q4);
    assert(r =~= ((r1 + q2) + r3) + q4);
    let e1 = eq_at_zero(r1);
    let e2 = eq_at_zero(q2);
    let e3 = eq_at_zero(r3);
    let e4 = eq_at_zero(q4);
    lemma_eq_at_zero_concat(q2, q4);
    lemma_eq_at_zero_concat(r1, q2);
    lemma_eq_at_zero_concat(r1 + q2, r3);
    lemma_eq_at_zero_concat((r1 + q2) + r3, q4);
    crate::field::lemma_fmul_assoc(fmul(e1, e2), e3, e4);
    crate::field::lemma_fmul_swap4(e1, e3, e2, e4);
    crate::field::lemma_fmul_swap4(e1, e2, e3, e4);
    assert forall|t: int| 0 <= t < a implies r[t]@ == r2[t]@ by {
        assert(!advice_position(shape, r.len(), t));
    }
    assert forall|t: int| m <= t < c implies r[t]@ == r2[t]@ by {
        assert(!advice_position(shape, r.len(), t));
    }
    lemma_prod_agree(r, r2, 0, a);
    lemma_prod_agree(r, r2, m, c);
}

/// An ordinary opening with `n` of the `max` variables has weight `eq(first max - n
/// variables, 0)`: the weight times `eq(its own point, 0)` is `eq(r_0..r_max, 0)`, and
/// the weight does not depend on the opening's own variables `r_(max-n)..r_max`.
pub proof fn lemma_opening_weight_law(r: Seq<Fr>, r2: Seq<Fr>, max: nat, n: nat, i: int, ta: Option<TrustedAdviceShape>)
    requires
        n <= max <= r.len(),
        r2.len() == r.len(),
        ta matches Some(shape) ==> shape.index != i,
        forall|t: int| 0 <= t < max - n ==> r[t]@ == r2[t]@,
    ensures
        fmul(opening_weight(r, max, n, i, ta), eq_at_zero(r.subrange(max - n, max as int))) == eq_at_zero(
            r.subrange(0, max as int),
        ),
        opening_weight(r, max, n, i, ta) == opening_weight(r2, max, n, i, ta),
{
    lemma_prod_is_eq_at_zero(r, 0, max - n);
    assert(r.subrange(0, max as int) =~= r.subrange(0, max - n) + r.subrange(max - n, max as int));
    lemma_eq_at_zero_concat(r.subrange(0, max - n), r.subrange(max - n, max as int));
    lemma_prod_agree(r, r2, 0, max - n);
}

} // verus!
