//! Univariate round polynomials of a sumcheck, the verifier's round-by-round folding of
//! a claim, and the front-loaded batching of several sumcheck instances.
use crate::field::{
    cong, fadd, fmul, fsub, lemma_cong_ops, lemma_cong_residue, lemma_fops_range,
    lemma_fr_view_range, lemma_modulus_large, pm, views, Fr,
};
use crate::packed_opening::ProofVerifyError;
use vstd::arithmetic::power2::{lemma_pow2_unfold, pow2};
use vstd::prelude::*;

verus! {

/// `x^k` over the integers.
pub open spec fn ipow(x: int, k: nat) -> int
    decreases k,
{
    if k == 0 {
        1
    } else {
        x * ipow(x, (k - 1) as nat)
    }
}

/// Coefficient `j` of the polynomial with coefficients `c`, zero past its end.
pub open spec fn coef(c: Seq<int>, j: int) -> int {
    if 0 <= j < c.len() {
        c[j]
    } else {
        0
    }
}

/// `Σ_{j < k} c_j x^j` over the integers.
pub open spec fn poly_sum(c: Seq<int>, x: int, k: nat) -> int
    decreases k,
{
    if k == 0 {
        0
    } else {
        poly_sum(c, x, (k - 1) as nat) + coef(c, k - 1) * ipow(x, (k - 1) as nat)
    }
}

/// The value at `x` in the field of the polynomial with coefficients `c`, lowest
/// degree first.
pub open spec fn poly_value(c: Seq<int>, x: int) -> int {
    poly_sum(c, x, c.len()) % pm()
}

/// `Σ_{1 <= i < k} c_i`.
pub open spec fn tail_sum(c: Seq<int>, k: nat) -> int
    decreases k,
{
    if k <= 1 {
        0
    } else {
        tail_sum(c, (k - 1) as nat) + c[k - 1]
    }
}

/// The linear coefficient of a compressed polynomial `c = [c_0, c_2, c_3, ..]` whose
/// values at 0 and 1 add up to `hint`: `hint - 2 c_0 - c_2 - c_3 - ..`.
pub open spec fn linear_from_hint(c: Seq<int>, hint: int) -> int {
    hint - 2 * c[0] - tail_sum(c, c.len())
}

/// The full coefficients of a compressed polynomial given the hint
/// `p(0) + p(1)`: `[c_0, linear, c_2, c_3, ..]`.
pub open spec fn decompress(c: Seq<int>, hint: int) -> Seq<int> {
    seq![c[0], linear_from_hint(c, hint)] + c.skip(1)
}

/// The claim after each round: the previous claim is the hint of the round's
/// compressed polynomial, which is evaluated at the round's challenge.
pub open spec fn folded_claim(polys: Seq<Seq<int>>, claim: int, rs: Seq<int>, k: nat) -> int
    decreases k,
{
    if k == 0 {
        claim
    } else {
        poly_value(decompress(polys[k - 1], folded_claim(polys, claim, rs, (k - 1) as nat)), rs[k - 1])
    }
}

/// Every one of the first `k` compressed polynomials has degree (its number of stored
/// coefficients) at most `bound`.
pub open spec fn degrees_within(polys: Seq<Vec<Fr>>, bound: nat, k: int) -> bool {
    forall|j: int| 0 <= j < k ==> #[trigger] polys[j].len() <= bound
}

/// Views of a list of coefficient vectors.
pub open spec fn coeff_views(polys: Seq<Vec<Fr>>) -> Seq<Seq<int>> {
    Seq::new(polys.len(), |i: int| views(polys[i]@))
}

/// The decompressed polynomial takes values at 0 and 1 that add up to the hint.
pub proof fn lemma_decompress_meets_hint(c: Seq<int>, hint: int)
    requires
        c.len() >= 1,
    ensures
        fadd(poly_value(decompress(c, hint), 0), poly_value(decompress(c, hint), 1)) == hint
            % pm(),
{
    let d = decompress(c, hint);
    lemma_modulus_large();
    lemma_poly_sum_at_zero(d, d.len());
    lemma_poly_sum_at_one(d, d.len());
    lemma_tail_sum_decompressed(c, hint, c.len());
    lemma_cong_ops(poly_sum(d, 0, d.len()), poly_sum(d, 0, d.len()), poly_sum(d, 1, d.len()), poly_sum(d, 1, d.len()));
    vstd::arithmetic::div_mod::lemma_mod_twice(poly_sum(d, 0, d.len()), pm());
    vstd::arithmetic::div_mod::lemma_mod_twice(poly_sum(d, 1, d.len()), pm());
    lemma_cong_ops(poly_value(d, 0), poly_sum(d, 0, d.len()), poly_value(d, 1), poly_sum(d, 1, d.len()));
    lemma_fops_range(poly_value(d, 0), poly_value(d, 1));
    lemma_cong_residue(fadd(poly_value(d, 0), poly_value(d, 1)), hint);
}

/// At 0 only the constant coefficient counts.
proof fn lemma_poly_sum_at_zero(c: Seq<int>, k: nat)
    requires
        k >= 1,
    ensures
        poly_sum(c, 0, k) == coef(c, 0),
    decreases k,
{
    if k > 1 {
        lemma_poly_sum_at_zero(c, (k - 1) as nat);
        let y = ipow(0, (k - 2) as nat);
        assert(ipow(0, (k - 1) as nat) == 0 * y);
        assert(0 * y == 0) by (nonlinear_arith);
        let z = coef(c, k - 1);
        assert(z * 0 == 0) by (nonlinear_arith);
    } else {
        assert(ipow(0, 0) == 1);
        assert(poly_sum(c, 0, 0) == 0);
        let z = coef(c, 0);
        assert(z * 1 == z);
    }
}

/// At 1 the value is the sum of the coefficients.
proof fn lemma_poly_sum_at_one(c: Seq<int>, k: nat)
    ensures
        poly_sum(c, 1, k) == coef_sum(c, k),
    decreases k,
{
    if k > 0 {
        lemma_poly_sum_at_one(c, (k - 1) as nat);
        lemma_ipow_one((k - 1) as nat);
    }
}

/// `Σ_{j < k} c_j`.
pub open spec fn coef_sum(c: Seq<int>, k: nat) -> int
    decreases k,
{
    if k == 0 {
        0
    } else {
        coef_sum(c, (k - 1) as nat) + coef(c, k - 1)
    }
}

proof fn lemma_ipow_one(k: nat)
    ensures
        ipow(1, k) == 1,
    decreases k,
{
    if k > 0 {
        lemma_ipow_one((k - 1) as nat);
    }
}

/// The coefficients of the decompressed polynomial add up to `hint - c_0`.
proof fn lemma_tail_sum_decompressed(c: Seq<int>, hint: int, m: nat)
    requires
        1 <= m <= c.len(),
    ensures
        coef_sum(decompress(c, hint), m + 1) == c[0] + linear_from_hint(c, hint) + tail_sum(c, m),
    decreases m,
{
    let d = decompress(c, hint);
    assert(d.len() == c.len() + 1);
    assert(d[0] == c[0]);
    assert(d[1] == linear_from_hint(c, hint));
    if m == 1 {
        assert(coef(d, 0) == c[0]);
        assert(coef(d, 1) == linear_from_hint(c, hint));
        assert(coef_sum(d, 0) == 0);
        assert(coef_sum(d, 1) == coef(d, 0));
        assert(coef_sum(d, 2) == coef_sum(d, 1) + coef(d, 1));
        assert(tail_sum(c, 1) == 0);
    } else {
        lemma_tail_sum_decompressed(c, hint, (m - 1) as nat);
        assert(d[m as int] == c.skip(1)[m - 2]);
        assert(coef(d, m as int) == c[m - 1]);
        assert(tail_sum(c, m) == tail_sum(c, (m - 1) as nat) + c[m - 1]);
    }
}

/// The value at `x` of the polynomial whose compressed coefficients are `c` and whose
/// values at 0 and 1 add up to `hint` (see [`decompress`]).
pub fn eval_from_hint(c: &Vec<Fr>, hint: Fr, x: Fr) -> (r: Fr)
    requires
        c.len() >= 1,
    ensures
        r@ == poly_value(decompress(views(c@), hint@ as int), x@ as int),
{
    let ghost cv = views(c@);
    let ghost d = decompress(cv, hint@ as int);
    let ghost xv = x@ as int;
    let m = c.len();
    proof {
        lemma_modulus_large();
    }
    let mut linear = hint.minus(&c[0]).minus(&c[0]);
    proof {
        lemma_cong_ops(hint@ as int, hint@ as int, c@[0]@ as int, cv[0]);
        lemma_cong_ops(fsub(hint@ as int, cv[0]), hint@ - cv[0], c@[0]@ as int, cv[0]);
    }
    let mut i: usize = 1;
    while i < m
        invariant
            1 <= i <= m,
            m == c.len(),
            cv == views(c@),
            cong(linear@ as int, hint@ - 2 * cv[0] - tail_sum(cv, i as nat)),
        decreases m - i,
    {
        let ghost before = linear@ as int;
        linear = linear.minus(&c[i]);
        proof {
            lemma_cong_ops(before, hint@ - 2 * cv[0] - tail_sum(cv, i as nat), c@[i as int]@ as int, cv[i as int]);
        }
        i = i + 1;
    }
    let ghost lin = linear_from_hint(cv, hint@ as int);
    let mut running_point = x;
    let mut running_sum = c[0].plus(&x.times(&linear));
    proof {
        lemma_cong_ops(xv, xv, linear@ as int, lin);
        lemma_cong_ops(cv[0], cv[0], fmul(xv, linear@ as int), xv * lin);
        assert(d[0] == cv[0]);
        assert(d[1] == lin);
        assert(coef(d, 0) == cv[0]);
        assert(coef(d, 1) == lin);
        assert(ipow(xv, 0) == 1);
        assert(ipow(xv, 1) == xv * ipow(xv, 0));
        assert(ipow(xv, 1) == xv * 1);
        assert(poly_sum(d, xv, 0) == 0);
        assert(poly_sum(d, xv, 1) == poly_sum(d, xv, 0) + coef(d, 0) * ipow(xv, 0));
        assert(poly_sum(d, xv, 2) == poly_sum(d, xv, 1) + coef(d, 1) * ipow(xv, 1));
        assert(poly_sum(d, xv, 2) == cv[0] + xv * lin) by (nonlinear_arith)
            requires
                poly_sum(d, xv, 2) == 0 + cv[0] * 1 + lin * ipow(xv, 1),
                ipow(xv, 1) == xv * 1,
        ;
        assert(ipow(xv, 0) == 1);
        assert(poly_sum(d, xv, 2) == 0 + coef(d, 0) * ipow(xv, 0) + coef(d, 1) * ipow(xv, 1));
    }
    let mut i: usize = 1;
    while i < m
        invariant
            1 <= i <= m,
            m == c.len(),
            cv == views(c@),
            d == decompress(cv, hint@ as int),
            xv == x@ as int,
            cong(running_point@ as int, ipow(xv, i as nat)),
            cong(running_sum@ as int, poly_sum(d, xv, (i + 1) as nat)),
        decreases m - i,
    {
        let ghost rp = running_point@ as int;
        let ghost rs = running_sum@ as int;
        running_point = running_point.times(&x);
        let term = c[i].times(&running_point);
        running_sum = running_sum.plus(&term);
        proof {
            lemma_cong_ops(rp, ipow(xv, i as nat), xv, xv);
            assert(ipow(xv, i as nat) * xv == ipow(xv, (i + 1) as nat)) by (nonlinear_arith)
                requires
                    ipow(xv, (i + 1) as nat) == xv * ipow(xv, i as nat),
            ;
            lemma_cong_ops(cv[i as int], cv[i as int], running_point@ as int, ipow(xv, (i + 1) as nat));
            lemma_cong_ops(rs, poly_sum(d, xv, (i + 1) as nat), term@ as int, cv[i as int] * ipow(xv, (i + 1) as nat));
            assert(d[i + 1] == cv.skip(1)[i - 1]);
            assert(coef(d, i + 1) == cv[i as int]);
            assert(poly_sum(d, xv, (i + 2) as nat) == poly_sum(d, xv, (i + 1) as nat) + coef(d, i + 1)
                * ipow(xv, (i + 1) as nat));
        }
        i = i + 1;
    }
    proof {
        assert(d.len() == m + 1);
        lemma_fr_view_range(running_sum);
        lemma_cong_residue(running_sum@ as int, poly_sum(d, xv, d.len()));
    }
    running_sum
}

/// The verifier's rounds of a sumcheck proof given its round challenges: each
/// compressed round polynomial must have degree at most `degree_bound` (else
/// `InvalidInputLength(degree_bound, degree)` for the first that does not); the claim is
/// then folded through the rounds, each round polynomial evaluated at its challenge
/// from the previous claim as hint. Returns the final claim and the challenges.
pub fn verify_rounds(polys: &Vec<Vec<Fr>>, claim: Fr, degree_bound: usize, challenges: &[Fr]) -> (r:
    Result<(Fr, Vec<Fr>), ProofVerifyError>)
    requires
        challenges.len() == polys.len(),
        forall|i: int|
            0 <= i < polys.len() && degrees_within(polys@, degree_bound as nat, i + 1)
                ==> #[trigger] polys@[i].len() >= 1,
    ensures
        r is Ok <==> degrees_within(polys@, degree_bound as nat, polys.len() as int),
        r matches Err(e) ==> exists|i: int|
            0 <= i < polys.len() && degrees_within(polys@, degree_bound as nat, i)
                && #[trigger] polys@[i].len() > degree_bound && e == ProofVerifyError::InvalidInputLength(
                degree_bound,
                polys@[i].len(),
            ),
        r matches Ok((e, rs)) ==> {
            &&& e@ == folded_claim(
                coeff_views(polys@),
                claim@ as int,
                views(challenges@),
                polys.len() as nat,
            )
            &&& rs@ == challenges@
        },
{
    let ghost ps = coeff_views(polys@);
    let ghost rv = views(challenges@);
    let mut e = claim;
    let mut r: Vec<Fr> = Vec::new();
    let mut i: usize = 0;
    while i < polys.len()
        invariant
            challenges.len() == polys.len(),
            forall|k: int|
                0 <= k < polys.len() && degrees_within(polys@, degree_bound as nat, k + 1)
                    ==> #[trigger] polys@[k].len() >= 1,
            ps == coeff_views(polys@),
            rv == views(challenges@),
            i <= polys.len(),
            degrees_within(polys@, degree_bound as nat, i as int),
            e@ == folded_claim(ps, claim@ as int, rv, i as nat),
            r@ == challenges@.take(i as int),
        decreases polys.len() - i,
    {
        let p = &polys[i];
        if p.len() > degree_bound {
            return Err(ProofVerifyError::InvalidInputLength(degree_bound, p.len()));
        }
        proof {
            assert(degrees_within(polys@, degree_bound as nat, i + 1));
            assert(polys@[i as int].len() >= 1);
        }
        let r_i = challenges[i];
        r.push(r_i);
        e = eval_from_hint(p, e, r_i);
        proof {
            assert(ps[i as int] == views(p@));
            assert(r@ =~= challenges@.take(i + 1));
        }
        i = i + 1;
    }
    proof {
        assert(r@ =~= challenges@);
    }
    Ok((e, r))
}

/// The compressed form of a polynomial with coefficients `p`: all but the linear one.
pub open spec fn compress(p: Seq<int>) -> Seq<int> {
    seq![p[0]] + p.skip(2)
}

/// The coefficients of `p` add up to `p_0 + p_1 +` the tail of its compressed form.
proof fn lemma_coef_sum_compressed(p: Seq<int>, k: nat)
    requires
        2 <= k <= p.len(),
    ensures
        coef_sum(p, k) == p[0] + p[1] + tail_sum(compress(p), (k - 1) as nat),
    decreases k,
{
    let c = compress(p);
    if k == 2 {
        assert(coef_sum(p, 0) == 0);
        assert(coef_sum(p, 1) == coef(p, 0));
        assert(tail_sum(c, 1) == 0);
    } else {
        lemma_coef_sum_compressed(p, (k - 1) as nat);
        assert(c[k - 2] == p.skip(2)[k - 3]);
        assert(tail_sum(c, (k - 1) as nat) == tail_sum(c, (k - 2) as nat) + c[k - 2]);
    }
}

/// Congruent coefficients give congruent values.
proof fn lemma_poly_sum_cong(a: Seq<int>, b: Seq<int>, x: int, k: nat)
    requires
        forall|t: int| 0 <= t < k ==> cong(#[trigger] coef(a, t), coef(b, t)),
    ensures
        cong(poly_sum(a, x, k), poly_sum(b, x, k)),
{
    let e = Seq::<int>::empty();
    assert forall|t: int| 0 <= t < k implies cong(#[trigger] coef(a, t), coef(b, t) + coef(e, t) * 0) by {
        assert(coef(e, t) * 0 == 0);
    }
    lemma_poly_sum_step(a, b, e, 0, x, k);
    assert(poly_sum(e, x, k) * 0 == 0);
}

/// The verifier recovers the prover's round polynomial: from the compressed form and
/// the hint `p(0) + p(1)` it rebuilds a polynomial with the same value everywhere.
pub proof fn lemma_hint_recovers_poly(p: Seq<int>, x: int)
    requires
        p.len() >= 2,
    ensures
        poly_value(decompress(compress(p), fadd(poly_value(p, 0), poly_value(p, 1))), x) == poly_value(
            p,
            x,
        ),
{
    lemma_modulus_large();
    let c = compress(p);
    let v0 = poly_value(p, 0);
    let v1 = poly_value(p, 1);
    let hint = fadd(v0, v1);
    let d = decompress(c, hint);
    lemma_poly_sum_at_zero(p, p.len());
    lemma_poly_sum_at_one(p, p.len());
    lemma_coef_sum_compressed(p, p.len());
    assert(c.len() == p.len() - 1);
    let tail = tail_sum(c, c.len());
    // hint ≡ 2 p0 + p1 + tail, so the rebuilt linear coefficient is ≡ p1
    vstd::arithmetic::div_mod::lemma_mod_twice(p[0], pm());
    vstd::arithmetic::div_mod::lemma_mod_twice(p[0] + p[1] + tail, pm());
    lemma_cong_ops(v0, p[0], v1, p[0] + p[1] + tail);
    assert(cong(hint, 2 * p[0] + p[1] + tail));
    lemma_cong_ops(hint, 2 * p[0] + p[1] + tail, 2 * p[0] + tail, 2 * p[0] + tail);
    assert(linear_from_hint(c, hint) == hint - (2 * p[0] + tail));
    vstd::arithmetic::div_mod::lemma_mod_twice(hint - (2 * p[0] + tail), pm());
    assert(cong(linear_from_hint(c, hint), p[1]));
    assert(d.len() == p.len());
    assert forall|t: int| 0 <= t < p.len() implies cong(#[trigger] coef(d, t), coef(p, t)) by {
        if t >= 2 {
            assert(d[t] == c.skip(1)[t - 2]);
            assert(c[t - 1] == p.skip(2)[t - 3 + 1]);
        }
    }
    lemma_poly_sum_cong(d, p, x, p.len());
}

// ---------------------------------------------------------------------------
// Front-loaded batching.

/// `x · 2^k` in the field.
pub fn mul_pow_2(x: Fr, k: usize) -> (r: Fr)
    ensures
        r@ == fmul(x@ as int, pow2(k as nat) as int),
{
    proof {
        lemma_modulus_large();
        vstd::arithmetic::power2::lemma2_to64();
    }
    let mut acc = x;
    let mut i: usize = 0;
    while i < k
        invariant
            i <= k,
            cong(acc@ as int, (x@ as int) * (pow2(i as nat) as int)),
        decreases k - i,
    {
        let ghost a = acc@ as int;
        acc = acc.plus(&acc);
        proof {
            lemma_pow2_unfold((i + 1) as nat);
            lemma_cong_ops(a, (x@ as int) * (pow2(i as nat) as int), a, (x@ as int) * (pow2(i as nat) as int));
            assert((x@ as int) * (pow2(i as nat) as int) + (x@ as int) * (pow2(i as nat) as int) == (x@ as int) * (pow2((i + 1) as nat) as int)) by (nonlinear_arith)
                requires
                    pow2((i + 1) as nat) == 2 * pow2(i as nat),
            ;
        }
        i = i + 1;
    }
    proof {
        lemma_fr_view_range(acc);
        lemma_cong_residue(acc@ as int, (x@ as int) * (pow2(k as nat) as int));
    }
    acc
}

/// The round polynomial instance `i` contributes in round `round` of `max_rounds`: while
/// more rounds remain than the instance has, the constant `claim · 2^(remaining - rounds
/// - 1)`, its input claim scaled to the rounds still to come; afterwards its own message.
pub open spec fn instance_round_poly(poly: Seq<int>, claim: int, rounds: nat, max_rounds: nat, round: nat) -> Seq<int> {
    if max_rounds - round > rounds {
        seq![fmul(claim, pow2((max_rounds - round - rounds - 1) as nat) as int)]
    } else {
        poly
    }
}

/// The round polynomials of all instances.
pub open spec fn instance_round_polys(
    polys: Seq<Vec<Fr>>,
    claims: Seq<Fr>,
    rounds: Seq<usize>,
    max_rounds: nat,
    round: nat,
) -> Seq<Seq<int>> {
    Seq::new(
        polys.len(),
        |i: int| instance_round_poly(views(polys[i]@), claims[i]@ as int, rounds[i] as nat, max_rounds, round),
    )
}

/// Coefficient `j` of `Σ_{i < m} us[i] · coeffs[i]`, accumulated in order of `i`.
pub open spec fn batched_entry(us: Seq<Seq<int>>, coeffs: Seq<int>, j: int, m: nat) -> int
    decreases m,
{
    if m == 0 {
        0
    } else if j < us[m - 1].len() {
        fadd(batched_entry(us, coeffs, j, (m - 1) as nat), fmul(us[m - 1][j], coeffs[m - 1]))
    } else {
        batched_entry(us, coeffs, j, (m - 1) as nat)
    }
}

/// The longest of the first `m` polynomials.
pub open spec fn max_len(us: Seq<Seq<int>>, m: nat) -> nat
    decreases m,
{
    if m == 0 {
        0
    } else if max_len(us, (m - 1) as nat) >= us[m - 1].len() {
        max_len(us, (m - 1) as nat)
    } else {
        us[m - 1].len()
    }
}

/// `Σ_{i < m} us[i] · coeffs[i]`, coefficient by coefficient.
pub open spec fn batched_poly(us: Seq<Seq<int>>, coeffs: Seq<int>, m: nat) -> Seq<int> {
    Seq::new(max_len(us, m), |j: int| batched_entry(us, coeffs, j, m))
}

/// `Σ_{i < m} v[i] · coeffs[i]` in the field, accumulated in order of `i`.
pub open spec fn batched_sum(v: Seq<int>, coeffs: Seq<int>, m: nat) -> int
    decreases m,
{
    if m == 0 {
        0
    } else {
        fadd(batched_sum(v, coeffs, (m - 1) as nat), fmul(v[m - 1], coeffs[m - 1]))
    }
}

/// Entries past every polynomial are zero; all entries are residues.
proof fn lemma_batched_entry_facts(us: Seq<Seq<int>>, coeffs: Seq<int>, j: int, m: nat)
    ensures
        j >= max_len(us, m) ==> batched_entry(us, coeffs, j, m) == 0,
        0 <= batched_entry(us, coeffs, j, m) < pm(),
    decreases m,
{
    lemma_modulus_large();
    if m > 0 {
        lemma_batched_entry_facts(us, coeffs, j, (m - 1) as nat);
        if j < us[m - 1].len() {
            lemma_fops_range(batched_entry(us, coeffs, j, (m - 1) as nat), fmul(us[m - 1][j], coeffs[m - 1]));
        }
    }
}

/// The batched round polynomial `Σ_i coeffs[i] · u_i` of one round, over the instances
/// that have a batching coefficient, where `u_i` is instance `i`'s round polynomial (see
/// [`instance_round_poly`]): its message `polys[i]` once the instance is active, the
/// scaled constant input claim `claims[i]` before.
pub fn batched_round_poly(
    polys: &[Vec<Fr>],
    coeffs: &[Fr],
    claims: &[Fr],
    rounds: &[usize],
    max_rounds: usize,
    round: usize,
) -> (h: Vec<Fr>)
    requires
        polys.len() == claims.len(),
        polys.len() == rounds.len(),
        round < max_rounds,
        forall|i: int| 0 <= i < rounds.len() ==> #[trigger] rounds@[i] <= max_rounds,
    ensures
        views(h@) == batched_poly(
            instance_round_polys(polys@, claims@, rounds@, max_rounds as nat, round as nat),
            views(coeffs@),
            if polys.len() <= coeffs.len() {
                polys.len() as nat
            } else {
                coeffs.len() as nat
            },
        ),
{
    let ghost us = instance_round_polys(polys@, claims@, rounds@, max_rounds as nat, round as nat);
    let ghost cv = views(coeffs@);
    let m = if polys.len() <= coeffs.len() {
        polys.len()
    } else {
        coeffs.len()
    };
    let remaining = max_rounds - round;
    let mut acc: Vec<Fr> = Vec::new();
    let mut i: usize = 0;
    while i < m
        invariant
            m <= polys.len(),
            m <= coeffs.len(),
            polys.len() == claims.len(),
            polys.len() == rounds.len(),
            remaining == max_rounds - round,
            us == instance_round_polys(polys@, claims@, rounds@, max_rounds as nat, round as nat),
            cv == views(coeffs@),
            i <= m,
            acc.len() == max_len(us, i as nat),
            forall|t: int| 0 <= t < acc.len() ==> #[trigger] acc@[t]@ == batched_entry(us, cv, t, i as nat),
        decreases m - i,
    {
        let mut u: Vec<Fr> = Vec::new();
        if remaining > rounds[i] {
            u.push(mul_pow_2(claims[i], remaining - rounds[i] - 1));
        } else {
            let p = &polys[i];
            let mut t: usize = 0;
            while t < p.len()
                invariant
                    t <= p.len(),
                    u@ == p@.take(t as int),
                decreases p.len() - t,
            {
                u.push(p[t]);
                t = t + 1;
                proof {
                    assert(u@ =~= p@.take(t as int));
                }
            }
            proof {
                assert(p@.take(p.len() as int) =~= p@);
            }
        }
        proof {
            assert(views(u@) =~= us[i as int]);
        }
        let ghost old_len: nat = acc.len() as nat;
        let c = coeffs[i];
        let mut j: usize = 0;
        while j < u.len()
            invariant
                views(u@) == us[i as int],
                c@ == cv[i as int],
                i < m,
                m <= polys.len(),
                us.len() == polys.len(),
                old_len == max_len(us, i as nat),
                j <= u.len(),
                acc.len() == if old_len >= j as nat {
                    old_len
                } else {
                    j as nat
                },
                forall|t: int|
                    0 <= t < acc.len() ==> #[trigger] acc@[t]@ == (if t < j {
                        batched_entry(us, cv, t, (i + 1) as nat)
                    } else {
                        batched_entry(us, cv, t, i as nat)
                    }),
            decreases u.len() - j,
        {
            let v = u[j].times(&c);
            proof {
                assert(views(u@)[j as int] == u@[j as int]@);
                lemma_batched_entry_facts(us, cv, j as int, i as nat);
            }
            if j < acc.len() {
                let updated = acc[j].plus(&v);
                acc.set(j, updated);
            } else {
                acc.push(v);
                proof {
                    lemma_fops_range(0, v@ as int);
                    lemma_fr_view_range(v);
                    crate::field::lemma_residue(v@ as int);
                }
            }
            j = j + 1;
        }
        proof {
            assert forall|t: int| 0 <= t < acc.len() implies #[trigger] acc@[t]@ == batched_entry(
                us,
                cv,
                t,
                (i + 1) as nat,
            ) by {
                if t >= u.len() {
                    assert(t >= us[i as int].len());
                }
            }
        }
        i = i + 1;
    }
    proof {
        assert(views(acc@) =~= batched_poly(us, cv, m as nat));
    }
    acc
}

/// Coefficients past the end add nothing to the value.
proof fn lemma_poly_sum_extend(c: Seq<int>, x: int, k: nat)
    requires
        k >= c.len(),
    ensures
        poly_sum(c, x, k) == poly_sum(c, x, c.len()),
    decreases k,
{
    if k > c.len() {
        lemma_poly_sum_extend(c, x, (k - 1) as nat);
        let y = ipow(x, (k - 1) as nat);
        assert(0 * y == 0) by (nonlinear_arith);
    }
}

/// If `a = b + u · cf` coefficient by coefficient (in the field), the same holds of
/// the values up to any length.
proof fn lemma_poly_sum_step(a: Seq<int>, b: Seq<int>, u: Seq<int>, cf: int, x: int, k: nat)
    requires
        forall|t: int| 0 <= t < k ==> cong(#[trigger] coef(a, t), coef(b, t) + coef(u, t) * cf),
    ensures
        cong(poly_sum(a, x, k), poly_sum(b, x, k) + poly_sum(u, x, k) * cf),
    decreases k,
{
    lemma_modulus_large();
    if k > 0 {
        let t = k - 1;
        lemma_poly_sum_step(a, b, u, cf, x, (k - 1) as nat);
        let w = ipow(x, t as nat);
        assert(cong(coef(a, t), coef(b, t) + coef(u, t) * cf));
        lemma_cong_ops(coef(a, t), coef(b, t) + coef(u, t) * cf, w, w);
        let pa = poly_sum(a, x, (k - 1) as nat);
        let pb = poly_sum(b, x, (k - 1) as nat);
        let pu = poly_sum(u, x, (k - 1) as nat);
        vstd::arithmetic::div_mod::lemma_mod_twice(coef(a, t) * w, pm());
        assert(cong(coef(a, t) * w, (coef(b, t) + coef(u, t) * cf) * w));
        lemma_cong_ops(pa, pb + pu * cf, coef(a, t) * w, (coef(b, t) + coef(u, t) * cf) * w);
        vstd::arithmetic::div_mod::lemma_mod_twice(pa + coef(a, t) * w, pm());
        assert(pb + pu * cf + (coef(b, t) + coef(u, t) * cf) * w == pb + coef(b, t) * w + (pu + coef(u, t)
            * w) * cf) by (nonlinear_arith);
        assert(poly_sum(a, x, k) == pa + coef(a, t) * w);
        assert(poly_sum(b, x, k) == pb + coef(b, t) * w);
        assert(poly_sum(u, x, k) == pu + coef(u, t) * w);
    }
}

/// The batched polynomial, evaluated anywhere, is the batched sum of the instances'
/// values there (integer form, any length past every polynomial).
proof fn lemma_batched_poly_sum(us: Seq<Seq<int>>, coeffs: Seq<int>, x: int, m: nat, k: nat)
    requires
        m <= us.len(),
        m <= coeffs.len(),
        k >= max_len(us, m),
    ensures
        cong(
            poly_sum(batched_poly(us, coeffs, m), x, k),
            batched_sum(Seq::new(us.len(), |i: int| poly_value(us[i], x)), coeffs, m),
        ),
    decreases m,
{
    lemma_modulus_large();
    let vals = Seq::new(us.len(), |i: int| poly_value(us[i], x));
    if m == 0 {
        assert forall|t: int| 0 <= t < k implies #[trigger] coef(batched_poly(us, coeffs, 0), t) == 0 by {}
        lemma_poly_sum_zero(batched_poly(us, coeffs, 0), x, k);
    } else {
        let a = batched_poly(us, coeffs, m);
        let b = batched_poly(us, coeffs, (m - 1) as nat);
        let u = us[m - 1];
        let cf = coeffs[m - 1];
        assert forall|t: int| 0 <= t < k implies cong(#[trigger] coef(a, t), coef(b, t) + coef(u, t) * cf) by {
            lemma_batched_entry_facts(us, coeffs, t, (m - 1) as nat);
            lemma_batched_entry_facts(us, coeffs, t, m);
            let e = batched_entry(us, coeffs, t, (m - 1) as nat);
            assert(coef(b, t) == e);
            assert(0 * cf == 0) by (nonlinear_arith);
            if t < u.len() {
                vstd::arithmetic::div_mod::lemma_mod_twice(u[t] * cf, pm());
                lemma_cong_ops(e, e, fmul(u[t], cf), u[t] * cf);
            }
        }
        lemma_poly_sum_step(a, b, u, cf, x, k);
        lemma_batched_poly_sum(us, coeffs, x, (m - 1) as nat, k);
        lemma_poly_sum_extend(u, x, k);
        let pb = poly_sum(b, x, k);
        let pu = poly_sum(u, x, k);
        let s = batched_sum(vals, coeffs, (m - 1) as nat);
        vstd::arithmetic::div_mod::lemma_mod_twice(pu, pm());
        assert(cong(poly_value(u, x), pu));
        lemma_cong_ops(poly_value(u, x), pu, cf, cf);
        lemma_cong_ops(s, pb, fmul(poly_value(u, x), cf), pu * cf);
        assert(vals[m - 1] == poly_value(u, x));
    }
}

/// A table of zero coefficients has value zero.
proof fn lemma_poly_sum_zero(c: Seq<int>, x: int, k: nat)
    requires
        forall|t: int| 0 <= t < k ==> #[trigger] coef(c, t) == 0,
    ensures
        poly_sum(c, x, k) == 0,
    decreases k,
{
    if k > 0 {
        lemma_poly_sum_zero(c, x, (k - 1) as nat);
        assert(coef(c, k - 1) == 0);
        let y = ipow(x, (k - 1) as nat);
        assert(0 * y == 0) by (nonlinear_arith);
    }
}

/// Batching commutes with evaluation: the batched round polynomial's value at `x` is
/// `Σ_i coeffs[i] · u_i(x)`.
pub proof fn lemma_batched_poly_value(us: Seq<Seq<int>>, coeffs: Seq<int>, x: int, m: nat)
    requires
        m <= us.len(),
        m <= coeffs.len(),
    ensures
        poly_value(batched_poly(us, coeffs, m), x) == batched_sum(
            Seq::new(us.len(), |i: int| poly_value(us[i], x)),
            coeffs,
            m,
        ),
{
    lemma_modulus_large();
    let vals = Seq::new(us.len(), |i: int| poly_value(us[i], x));
    lemma_batched_poly_sum(us, coeffs, x, m, max_len(us, m));
    lemma_batched_sum_range(vals, coeffs, m);
    lemma_cong_residue(batched_sum(vals, coeffs, m), poly_sum(batched_poly(us, coeffs, m), x, max_len(us, m)));
}

proof fn lemma_batched_sum_range(v: Seq<int>, coeffs: Seq<int>, m: nat)
    ensures
        0 <= batched_sum(v, coeffs, m) < pm(),
{
    lemma_modulus_large();
    if m > 0 {
        lemma_fops_range(batched_sum(v, coeffs, (m - 1) as nat), fmul(v[m - 1], coeffs[m - 1]));
    }
}

/// The batched claim is met: when each instance's round polynomial takes values at 0
/// and 1 that add up to its claim `prev[i]`, the batched polynomial's values at 0 and 1
/// add up to `Σ_i coeffs[i] · prev[i]`.
pub proof fn lemma_batched_round_meets_claim(us: Seq<Seq<int>>, coeffs: Seq<int>, prev: Seq<int>, m: nat)
    requires
        m <= us.len(),
        m <= coeffs.len(),
        m <= prev.len(),
        forall|i: int| 0 <= i < m ==> #[trigger] fadd(poly_value(us[i], 0), poly_value(us[i], 1)) == prev[i],
    ensures
        fadd(poly_value(batched_poly(us, coeffs, m), 0), poly_value(batched_poly(us, coeffs, m), 1))
            == batched_sum(prev, coeffs, m),
{
    lemma_batched_poly_value(us, coeffs, 0, m);
    lemma_batched_poly_value(us, coeffs, 1, m);
    lemma_batched_sum_split(us, coeffs, prev, m);
}

proof fn lemma_batched_sum_split(us: Seq<Seq<int>>, coeffs: Seq<int>, prev: Seq<int>, m: nat)
    requires
        m <= us.len(),
        m <= coeffs.len(),
        m <= prev.len(),
        forall|i: int| 0 <= i < m ==> #[trigger] fadd(poly_value(us[i], 0), poly_value(us[i], 1)) == prev[i],
    ensures
        fadd(
            batched_sum(Seq::new(us.len(), |i: int| poly_value(us[i], 0)), coeffs, m),
            batched_sum(Seq::new(us.len(), |i: int| poly_value(us[i], 1)), coeffs, m),
        ) == batched_sum(prev, coeffs, m),
    decreases m,
{
    lemma_modulus_large();
    let v0 = Seq::new(us.len(), |i: int| poly_value(us[i], 0));
    let v1 = Seq::new(us.len(), |i: int| poly_value(us[i], 1));
    if m == 0 {
        crate::field::lemma_residue(0);
        assert(fadd(0, 0) == 0);
    } else {
        lemma_batched_sum_split(us, coeffs, prev, (m - 1) as nat);
        let k = m - 1;
        let s0 = batched_sum(v0, coeffs, k as nat);
        let s1 = batched_sum(v1, coeffs, k as nat);
        let a = v0[k];
        let b = v1[k];
        let c = coeffs[k];
        assert(fadd(a, b) == prev[k]);
        // (s0 + a c) + (s1 + b c) == (s0 + s1) + (a + b) c, all mod p
        lemma_cong_ops(a, a, c, c);
        lemma_cong_ops(b, b, c, c);
        lemma_cong_ops(s0, s0, fmul(a, c), a * c);
        lemma_cong_ops(s1, s1, fmul(b, c), b * c);
        lemma_cong_ops(fadd(s0, fmul(a, c)), s0 + a * c, fadd(s1, fmul(b, c)), s1 + b * c);
        lemma_cong_ops(a, a, b, b);
        lemma_cong_ops(fadd(a, b), a + b, c, c);
        lemma_cong_ops(s0, s0, s1, s1);
        lemma_cong_ops(fadd(s0, s1), s0 + s1, fmul(fadd(a, b), c), (a + b) * c);
        assert(s0 + a * c + (s1 + b * c) == s0 + s1 + (a + b) * c) by (nonlinear_arith);
        lemma_fops_range(fadd(s0, fmul(a, c)), fadd(s1, fmul(b, c)));
        lemma_fops_range(fadd(s0, s1), fmul(fadd(a, b), c));
        lemma_cong_residue(fadd(fadd(s0, fmul(a, c)), fadd(s1, fmul(b, c))), s0 + s1 + (a + b) * c);
        lemma_cong_residue(fadd(fadd(s0, s1), fmul(fadd(a, b), c)), s0 + s1 + (a + b) * c);
    }
}

/// An instance that is not yet active meets its scaled claim: the constant
/// `claim · 2^k` takes values at 0 and 1 that add up to `claim · 2^(k + 1)`.
pub proof fn lemma_inactive_round_meets_claim(claim: int, k: nat)
    ensures
        fadd(
            poly_value(seq![fmul(claim, pow2(k) as int)], 0),
            poly_value(seq![fmul(claim, pow2(k) as int)], 1),
        ) == fmul(claim, pow2(k + 1) as int),
{
    lemma_modulus_large();
    let v = fmul(claim, pow2(k) as int);
    let c = seq![v];
    assert(poly_sum(c, 0, 1) == poly_sum(c, 0, 0) + coef(c, 0) * ipow(0, 0));
    assert(poly_sum(c, 1, 1) == poly_sum(c, 1, 0) + coef(c, 0) * ipow(1, 0));
    lemma_fops_range(claim, pow2(k) as int);
    crate::field::lemma_residue(v);
    lemma_pow2_unfold(k + 1);
    lemma_cong_ops(claim, claim, pow2(k) as int, pow2(k) as int);
    lemma_cong_ops(v, claim * pow2(k), v, claim * pow2(k));
    assert(claim * pow2(k) + claim * pow2(k) == claim * pow2(k + 1)) by (nonlinear_arith)
        requires
            pow2(k + 1) == 2 * pow2(k),
    ;
    lemma_fops_range(v, v);
    lemma_cong_residue(fadd(v, v), claim * pow2(k + 1));
}

} // verus!
