//! The front-loaded batched sumcheck over its rounds: which instances are active in a
//! round, the round polynomials of the batch, and the claims carried from round to
//! round.
use crate::field::{
    cong, fadd, fmul, lemma_cong_ops, lemma_cong_residue, lemma_fr_view_range, lemma_modulus_large,
    pm, views, Fr,
};
use crate::sumcheck::{
    batched_poly, batched_round_poly, batched_sum, coef, instance_round_poly, instance_round_polys,
    ipow, lemma_batched_poly_value, lemma_batched_round_meets_claim, lemma_inactive_round_meets_claim,
    mul_pow_2, poly_sum, poly_value,
};
use vstd::arithmetic::power2::pow2;
use vstd::prelude::*;

verus! {

/// What an instance does in one round of the batch.
#[derive(Clone, Copy, Debug, PartialEq, Eq, Structural)]
pub enum InstanceRound {
    /// Not yet active: it contributes its input claim times `2^scale_exp`, a constant.
    Constant { scale_exp: usize },
    /// Active: it sends the message of its own round `local_round`.
    Message { local_round: usize },
}

/// The role of an instance with `n` rounds in round `round` of a batch of `max`
/// rounds: instances start late so that all of them end with the last round.
pub open spec fn instance_round(max: nat, n: nat, round: nat) -> InstanceRound {
    if max - round > n {
        InstanceRound::Constant { scale_exp: (max - round - n - 1) as usize }
    } else {
        InstanceRound::Message { local_round: (round - (max - n)) as usize }
    }
}

/// What the plan means: an instance is a constant exactly while more rounds remain than
/// it has; its constant `claim · 2^scale_exp` then takes values at 0 and 1 that add up to
/// the claim it carries into the round, `claim · 2^(max - round - n)`, and is its round
/// polynomial; once active, it sends its local round `local_round`, counted from the round
/// `max - n` in which it starts, and that message is its round polynomial.
pub proof fn lemma_round_plan_law(max: nat, n: nat, round: nat, claim: int, poly: Seq<int>)
    requires
        n <= max,
        round < max,
        max <= usize::MAX,
        0 <= claim < pm(),
    ensures
        instance_round(max, n, round) is Constant <==> round + n < max,
        instance_round(max, n, round) matches InstanceRound::Constant { scale_exp } ==> {
            &&& round + n + scale_exp + 1 == max
            &&& fadd(
                poly_value(seq![fmul(claim, pow2(scale_exp as nat) as int)], 0),
                poly_value(seq![fmul(claim, pow2(scale_exp as nat) as int)], 1),
            ) == fmul(claim, pow2((max - round - n) as nat) as int)
            &&& instance_round_poly(poly, claim, n, max, round) == seq![
                fmul(claim, pow2(scale_exp as nat) as int),
            ]
        },
        instance_round(max, n, round) matches InstanceRound::Message { local_round } ==> {
            &&& local_round < n
            &&& local_round + max == round + n
            &&& instance_round_poly(poly, claim, n, max, round) == poly
        },
{
    if round + n < max {
        let e = (max - round - n - 1) as nat;
        lemma_inactive_round_meets_claim(claim, e);
        assert(e + 1 == max - round - n);
    }
}

/// The role of every instance in round `round` of a batch of `max_num_rounds` rounds.
pub fn batched_round_plan(max_num_rounds: usize, num_rounds: &[usize], round: usize) -> (r: Vec<
    InstanceRound,
>)
    requires
        round < max_num_rounds,
        forall|i: int| 0 <= i < num_rounds.len() ==> #[trigger] num_rounds@[i] <= max_num_rounds,
    ensures
        r.len() == num_rounds.len(),
        forall|i: int|
            0 <= i < r.len() ==> #[trigger] r@[i] == instance_round(
                max_num_rounds as nat,
                num_rounds@[i] as nat,
                round as nat,
            ),
        forall|i: int|
            0 <= i < r.len() ==> match #[trigger] r@[i] {
                InstanceRound::Constant { scale_exp } => round + num_rounds@[i] + scale_exp + 1
                    == max_num_rounds,
                InstanceRound::Message { local_round } => local_round < num_rounds@[i]
                    && local_round + max_num_rounds == round + num_rounds@[i],
            },
{
    let remaining = max_num_rounds - round;
    let mut r: Vec<InstanceRound> = Vec::new();
    let mut i: usize = 0;
    while i < num_rounds.len()
        invariant
            round < max_num_rounds,
            remaining == max_num_rounds - round,
            forall|k: int| 0 <= k < num_rounds.len() ==> #[trigger] num_rounds@[k] <= max_num_rounds,
            i <= num_rounds.len(),
            r.len() == i,
            forall|k: int|
                0 <= k < i ==> #[trigger] r@[k] == instance_round(
                    max_num_rounds as nat,
                    num_rounds@[k] as nat,
                    round as nat,
                ),
            forall|k: int|
                0 <= k < i ==> match #[trigger] r@[k] {
                    InstanceRound::Constant { scale_exp } => round + num_rounds@[k] + scale_exp + 1
                        == max_num_rounds,
                    InstanceRound::Message { local_round } => local_round < num_rounds@[k]
                        && local_round + max_num_rounds == round + num_rounds@[k],
                },
        decreases num_rounds.len() - i,
    {
        let n = num_rounds[i];
        proof {
            crate::field::lemma_modulus_large();
            lemma_round_plan_law(max_num_rounds as nat, n as nat, round as nat, 0, Seq::empty());
        }
        if remaining > n {
            r.push(InstanceRound::Constant { scale_exp: remaining - n - 1 });
        } else {
            r.push(InstanceRound::Message { local_round: round - (max_num_rounds - n) });
        }
        i = i + 1;
    }
    r
}

/// The value at `x` of the polynomial with coefficients `c`.
pub fn evaluate(c: &Vec<Fr>, x: Fr) -> (r: Fr)
    ensures
        r@ == poly_value(views(c@), x@ as int),
{
    let ghost cv = views(c@);
    let ghost xv = x@ as int;
    proof {
        lemma_modulus_large();
    }
    let mut acc = Fr::zero();
    let mut power = Fr::one();
    let mut k: usize = 0;
    while k < c.len()
        invariant
            k <= c.len(),
            cv == views(c@),
            xv == x@ as int,
            cong(acc@ as int, poly_sum(cv, xv, k as nat)),
            cong(power@ as int, ipow(xv, k as nat)),
        decreases c.len() - k,
    {
        let ghost a = acc@ as int;
        let ghost p = power@ as int;
        let term = c[k].times(&power);
        acc = acc.plus(&term);
        power = power.times(&x);
        proof {
            assert(coef(cv, k as int) == c@[k as int]@);
            lemma_cong_ops(cv[k as int], cv[k as int], p, ipow(xv, k as nat));
            lemma_cong_ops(a, poly_sum(cv, xv, k as nat), term@ as int, cv[k as int] * ipow(xv, k as nat));
            lemma_cong_ops(p, ipow(xv, k as nat), xv, xv);
            assert(ipow(xv, k as nat) * xv == ipow(xv, (k + 1) as nat)) by (nonlinear_arith)
                requires
                    ipow(xv, (k + 1) as nat) == xv * ipow(xv, k as nat),
            ;
        }
        k = k + 1;
    }
    proof {
        lemma_fr_view_range(acc);
        lemma_cong_residue(acc@ as int, poly_sum(cv, xv, cv.len()));
    }
    acc
}

/// A copy of `v`.
fn copy_vec(v: &Vec<Fr>) -> (r: Vec<Fr>)
    ensures
        r@ == v@,
{
    let mut r: Vec<Fr> = Vec::new();
    let mut t: usize = 0;
    while t < v.len()
        invariant
            t <= v.len(),
            r@ == v@.take(t as int),
        decreases v.len() - t,
    {
        r.push(v[t]);
        t = t + 1;
        proof {
            assert(r@ =~= v@.take(t as int));
        }
    }
    proof {
        assert(v@.take(v.len() as int) =~= v@);
    }
    r
}

/// The largest number of rounds among the first `k` instances (instance `i` has one
/// message per round).
pub open spec fn max_rounds(msgs: Seq<Vec<Vec<Fr>>>, k: nat) -> nat
    decreases k,
{
    if k == 0 {
        0
    } else if max_rounds(msgs, (k - 1) as nat) >= msgs[k - 1].len() {
        max_rounds(msgs, (k - 1) as nat)
    } else {
        msgs[k - 1].len() as nat
    }
}

proof fn lemma_max_rounds_bound(msgs: Seq<Vec<Vec<Fr>>>, k: nat)
    requires
        k <= msgs.len(),
    ensures
        forall|i: int| 0 <= i < k ==> #[trigger] msgs[i].len() <= max_rounds(msgs, k),
        k > 0 ==> exists|i: int| 0 <= i < k && #[trigger] msgs[i].len() == max_rounds(msgs, k),
    decreases k,
{
    if k > 0 {
        lemma_max_rounds_bound(msgs, (k - 1) as nat);
        assert(max_rounds(msgs, 0) == 0);
        if max_rounds(msgs, (k - 1) as nat) < msgs[k - 1].len() || k == 1 {
            assert(msgs[k - 1].len() == max_rounds(msgs, k));
        } else {
            let w = choose|i: int| 0 <= i < k - 1 && #[trigger] msgs[i].len() == max_rounds(msgs, (k - 1) as nat);
            assert(msgs[w].len() == max_rounds(msgs, k));
        }
    }
}

/// The message instance `i` sends in round `j` of a batch of `max` rounds, or nothing
/// while it is not active.
pub open spec fn message_at(msgs: Seq<Vec<Vec<Fr>>>, max: nat, i: int, j: nat) -> Seq<int> {
    if max - j > msgs[i].len() {
        Seq::empty()
    } else {
        views(msgs[i][j - (max - msgs[i].len())]@)
    }
}

/// The round polynomials of all instances in round `j` (see [`instance_round_poly`]).
pub open spec fn round_polys(msgs: Seq<Vec<Vec<Fr>>>, claims: Seq<Fr>, max: nat, j: nat) -> Seq<
    Seq<int>,
> {
    Seq::new(
        msgs.len(),
        |i: int| instance_round_poly(message_at(msgs, max, i, j), claims[i]@ as int, msgs[i].len() as nat, max, j),
    )
}

/// Number of instances that have a batching coefficient.
pub open spec fn batched_count(n: nat, coeffs: nat) -> nat {
    if n <= coeffs {
        n
    } else {
        coeffs
    }
}

/// The batched round polynomial of round `j`.
pub open spec fn batched_round(msgs: Seq<Vec<Vec<Fr>>>, claims: Seq<Fr>, coeffs: Seq<Fr>, j: nat) -> Seq<int> {
    batched_poly(
        round_polys(msgs, claims, max_rounds(msgs, msgs.len()), j),
        views(coeffs),
        batched_count(msgs.len(), coeffs.len()),
    )
}

/// The number of rounds of the batch: the most any instance has.
pub fn batch_num_rounds(msgs: &Vec<Vec<Vec<Fr>>>) -> (r: usize)
    ensures
        r == max_rounds(msgs@, msgs.len() as nat),
{
    let mut m: usize = 0;
    let mut i: usize = 0;
    while i < msgs.len()
        invariant
            i <= msgs.len(),
            m == max_rounds(msgs@, i as nat),
        decreases msgs.len() - i,
    {
        if m < msgs[i].len() {
            m = msgs[i].len();
        }
        i = i + 1;
    }
    m
}

/// The round polynomials of a front-loaded batched sumcheck, one per round of the
/// longest instance: in round `j`, `Σ_i coeffs[i] · u_ij`, where instance `i` (with
/// `msgs[i].len()` rounds, one message each) contributes its scaled constant input claim
/// `claims[i]` until its rounds begin and its messages in order from then on.
pub fn batched_messages(msgs: &Vec<Vec<Vec<Fr>>>, coeffs: &[Fr], claims: &[Fr]) -> (h: Vec<Vec<Fr>>)
    requires
        msgs.len() == claims.len(),
    ensures
        h.len() == max_rounds(msgs@, msgs.len() as nat),
        forall|j: int| 0 <= j < h.len() ==> views(#[trigger] h@[j]@) == batched_round(msgs@, claims@, coeffs@, j as nat),
{
    let max = batch_num_rounds(msgs);
    proof {
        lemma_max_rounds_bound(msgs@, msgs.len() as nat);
    }
    let mut rounds: Vec<usize> = Vec::new();
    let mut i: usize = 0;
    while i < msgs.len()
        invariant
            i <= msgs.len(),
            rounds.len() == i,
            forall|k: int| 0 <= k < i ==> #[trigger] rounds@[k] == msgs@[k].len(),
        decreases msgs.len() - i,
    {
        rounds.push(msgs[i].len());
        i = i + 1;
    }
    let mut h: Vec<Vec<Fr>> = Vec::new();
    let mut j: usize = 0;
    while j < max
        invariant
            max == max_rounds(msgs@, msgs.len() as nat),
            forall|k: int| 0 <= k < msgs.len() ==> #[trigger] msgs@[k].len() <= max,
            msgs.len() == claims.len(),
            rounds.len() == msgs.len(),
            forall|k: int| 0 <= k < msgs.len() ==> #[trigger] rounds@[k] == msgs@[k].len(),
            j <= max,
            h.len() == j,
            forall|t: int| 0 <= t < j ==> views(#[trigger] h@[t]@) == batched_round(msgs@, claims@, coeffs@, t as nat),
        decreases max - j,
    {
        let mut polys: Vec<Vec<Fr>> = Vec::new();
        let mut i: usize = 0;
        while i < msgs.len()
            invariant
                j < max,
                forall|k: int| 0 <= k < msgs.len() ==> #[trigger] msgs@[k].len() <= max,
                i <= msgs.len(),
                polys.len() == i,
                forall|k: int|
                    0 <= k < i && max - j <= msgs@[k].len() ==> views(#[trigger] polys@[k]@) == message_at(
                        msgs@,
                        max as nat,
                        k,
                        j as nat,
                    ),
            decreases msgs.len() - i,
        {
            let n = msgs[i].len();
            if max - j > n {
                polys.push(Vec::new());
            } else {
                polys.push(copy_vec(&msgs[i][j - (max - n)]));
            }
            i = i + 1;
        }
        let hj = batched_round_poly(polys.as_slice(), coeffs, claims, rounds.as_slice(), max, j);
        proof {
            assert(instance_round_polys(polys@, claims@, rounds@, max as nat, j as nat) =~= round_polys(
                msgs@,
                claims@,
                max as nat,
                j as nat,
            ));
        }
        h.push(hj);
        j = j + 1;
    }
    h
}

/// The claims each instance carries into the rounds: before the first round its input
/// claim times `2^(max - n_i)`; after round `j`, the value of its round polynomial at
/// the round's challenge `challenges[j]`.
pub fn carried_claims(msgs: &Vec<Vec<Vec<Fr>>>, claims: &[Fr], challenges: &[Fr]) -> (c: Vec<Vec<Fr>>)
    requires
        msgs.len() == claims.len(),
        challenges.len() == max_rounds(msgs@, msgs.len() as nat),
    ensures
        c.len() == challenges.len() + 1,
        forall|j: int| 0 <= j < c.len() ==> (#[trigger] c@[j]).len() == msgs.len(),
        forall|i: int|
            0 <= i < msgs.len() ==> #[trigger] c@[0]@[i]@ == fmul(
                claims@[i]@ as int,
                pow2((challenges.len() - msgs@[i].len()) as nat) as int,
            ),
        forall|j: int, i: int|
            0 <= j < challenges.len() && 0 <= i < msgs.len() ==> #[trigger] c@[j + 1]@[i]@ == poly_value(
                round_polys(msgs@, claims@, challenges.len() as nat, j as nat)[i],
                challenges@[j]@ as int,
            ),
{
    let max = batch_num_rounds(msgs);
    proof {
        lemma_max_rounds_bound(msgs@, msgs.len() as nat);
    }
    let mut c: Vec<Vec<Fr>> = Vec::new();
    let mut first: Vec<Fr> = Vec::new();
    let mut i: usize = 0;
    while i < msgs.len()
        invariant
            max == challenges.len(),
            msgs.len() == claims.len(),
            forall|k: int| 0 <= k < msgs.len() ==> #[trigger] msgs@[k].len() <= max,
            i <= msgs.len(),
            first.len() == i,
            forall|k: int|
                0 <= k < i ==> #[trigger] first@[k]@ == fmul(
                    claims@[k]@ as int,
                    pow2((max - msgs@[k].len()) as nat) as int,
                ),
        decreases msgs.len() - i,
    {
        first.push(mul_pow_2(claims[i], max - msgs[i].len()));
        i = i + 1;
    }
    c.push(first);
    let mut j: usize = 0;
    while j < max
        invariant
            max == challenges.len(),
            max == max_rounds(msgs@, msgs.len() as nat),
            msgs.len() == claims.len(),
            forall|k: int| 0 <= k < msgs.len() ==> #[trigger] msgs@[k].len() <= max,
            j <= max,
            c.len() == j + 1,
            forall|t: int| 0 <= t < c.len() ==> (#[trigger] c@[t]).len() == msgs.len(),
            forall|k: int|
                0 <= k < msgs.len() ==> #[trigger] c@[0]@[k]@ == fmul(
                    claims@[k]@ as int,
                    pow2((max - msgs@[k].len()) as nat) as int,
                ),
            forall|t: int, k: int|
                0 <= t < j && 0 <= k < msgs.len() ==> #[trigger] c@[t + 1]@[k]@ == poly_value(
                    round_polys(msgs@, claims@, max as nat, t as nat)[k],
                    challenges@[t]@ as int,
                ),
        decreases max - j,
    {
        let r = challenges[j];
        let mut next: Vec<Fr> = Vec::new();
        let mut i: usize = 0;
        while i < msgs.len()
            invariant
                j < max,
                max == challenges.len(),
                r == challenges@[j as int],
                msgs.len() == claims.len(),
                forall|k: int| 0 <= k < msgs.len() ==> #[trigger] msgs@[k].len() <= max,
                i <= msgs.len(),
                next.len() == i,
                forall|k: int|
                    0 <= k < i ==> #[trigger] next@[k]@ == poly_value(
                        round_polys(msgs@, claims@, max as nat, j as nat)[k],
                        r@ as int,
                    ),
            decreases msgs.len() - i,
        {
            let n = msgs[i].len();
            let mut u: Vec<Fr> = Vec::new();
            if max - j > n {
                u.push(mul_pow_2(claims[i], max - j - n - 1));
            } else {
                u = copy_vec(&msgs[i][j - (max - n)]);
            }
            proof {
                assert(views(u@) =~= round_polys(msgs@, claims@, max as nat, j as nat)[i as int]);
            }
            next.push(evaluate(&u, r));
            i = i + 1;
        }
        let ghost before = c@;
        c.push(next);
        proof {
            assert forall|t: int, k: int|
                0 <= t < j + 1 && 0 <= k < msgs.len() implies #[trigger] c@[t + 1]@[k]@ == poly_value(
                round_polys(msgs@, claims@, max as nat, t as nat)[k],
                challenges@[t]@ as int,
            ) by {
                if t < j {
                    assert(c@[t + 1] == before[t + 1]);
                }
            }
        }
        j = j + 1;
    }
    c
}

/// Each instance's messages are consistent: the message of its first round takes values
/// at 0 and 1 that add up to its input claim, and each later message to the previous
/// message's value at the batch's challenge of that round.
pub open spec fn messages_consistent(msgs: Seq<Vec<Vec<Fr>>>, claims: Seq<Fr>, rs: Seq<int>) -> bool {
    let max = max_rounds(msgs, msgs.len());
    forall|i: int, k: int|
        0 <= i < msgs.len() && 0 <= k < msgs[i].len() ==> fadd(
            poly_value(views(#[trigger] msgs[i][k]@), 0),
            poly_value(views(msgs[i][k]@), 1),
        ) == (if k == 0 {
            claims[i]@ as int
        } else {
            poly_value(views(msgs[i][k - 1]@), rs[max - msgs[i].len() + k - 1])
        })
}

/// A constant polynomial takes its (reduced) value everywhere.
proof fn lemma_constant_value(v: int, x: int)
    requires
        0 <= v < pm(),
    ensures
        poly_value(seq![v], x) == v,
{
    lemma_modulus_large();
    let c = seq![v];
    assert(ipow(x, 0) == 1);
    assert(poly_sum(c, x, 0) == 0);
    assert(poly_sum(c, x, 1) == poly_sum(c, x, 0) + coef(c, 0) * ipow(x, 0));
    crate::field::lemma_residue(v);
}

/// One instance's round polynomial meets the claim it carries into the round.
proof fn lemma_instance_round_sum(msgs: Seq<Vec<Vec<Fr>>>, claims: Seq<Fr>, rs: Seq<int>, i: int, j: nat)
    requires
        messages_consistent(msgs, claims, rs),
        msgs.len() == claims.len(),
        0 <= i < msgs.len(),
        j < max_rounds(msgs, msgs.len()),
        rs.len() >= max_rounds(msgs, msgs.len()),
    ensures
        ({
            let max = max_rounds(msgs, msgs.len());
            let u = round_polys(msgs, claims, max, j)[i];
            let s = fadd(poly_value(u, 0), poly_value(u, 1));
            &&& j == 0 ==> s == fmul(claims[i]@ as int, pow2((max - msgs[i].len()) as nat) as int)
            &&& j > 0 ==> s == poly_value(round_polys(msgs, claims, max, (j - 1) as nat)[i], rs[j - 1])
        }),
{
    lemma_modulus_large();
    lemma_max_rounds_bound(msgs, msgs.len());
    let max = max_rounds(msgs, msgs.len());
    let n = msgs[i].len();
    let c = claims[i]@ as int;
    lemma_fr_view_range(claims[i]);
    vstd::arithmetic::power2::lemma2_to64();
    if max - j > n {
        let e = (max - j - n - 1) as nat;
        lemma_inactive_round_meets_claim(c, e);
        if j > 0 {
            crate::field::lemma_fops_range(c, pow2(e + 1) as int);
            lemma_constant_value(fmul(c, pow2(e + 1) as int), rs[j - 1]);
        }
    } else {
        let k = j - (max - n);
        assert(fadd(poly_value(views(msgs[i][k]@), 0), poly_value(views(msgs[i][k]@), 1)) == (if k == 0 {
            c
        } else {
            poly_value(views(msgs[i][k - 1]@), rs[max - n + k - 1])
        }));
        if k == 0 {
            crate::field::lemma_residue(c);
            assert(fmul(c, 1) == c);
            if j > 0 {
                crate::field::lemma_fops_range(c, 1);
                lemma_constant_value(fmul(c, pow2(0) as int), rs[j - 1]);
            }
        }
    }
}

/// The batch starts from the scaled claims: the first round polynomial's values at 0
/// and 1 add up to `Σ_i coeffs[i] · 2^(max - n_i) · claims[i]`, when every instance's
/// messages are consistent.
pub proof fn lemma_batched_first_round(msgs: Seq<Vec<Vec<Fr>>>, claims: Seq<Fr>, coeffs: Seq<Fr>, rs: Seq<int>)
    requires
        messages_consistent(msgs, claims, rs),
        msgs.len() == claims.len(),
        max_rounds(msgs, msgs.len()) > 0,
        rs.len() >= max_rounds(msgs, msgs.len()),
    ensures
        ({
            let h = batched_round(msgs, claims, coeffs, 0);
            fadd(poly_value(h, 0), poly_value(h, 1)) == batched_sum(
                Seq::new(
                    msgs.len(),
                    |i: int| fmul(claims[i]@ as int, pow2((max_rounds(msgs, msgs.len()) - msgs[i].len()) as nat) as int),
                ),
                views(coeffs),
                batched_count(msgs.len(), coeffs.len()),
            )
        }),
{
    let max = max_rounds(msgs, msgs.len());
    let us = round_polys(msgs, claims, max, 0);
    let prev = Seq::new(
        msgs.len(),
        |i: int| fmul(claims[i]@ as int, pow2((max - msgs[i].len()) as nat) as int),
    );
    let m = batched_count(msgs.len(), coeffs.len());
    assert forall|i: int| 0 <= i < m implies #[trigger] fadd(poly_value(us[i], 0), poly_value(us[i], 1))
        == prev[i] by {
        lemma_instance_round_sum(msgs, claims, rs, i, 0);
    }
    lemma_batched_round_meets_claim(us, views(coeffs), prev, m);
}

/// Round consistency of the batch: for every round `j > 0`, the round polynomial's
/// values at 0 and 1 add up to the previous round polynomial's value at the previous
/// challenge, when every instance's messages are consistent.
pub proof fn lemma_batched_rounds_consistent(
    msgs: Seq<Vec<Vec<Fr>>>,
    claims: Seq<Fr>,
    coeffs: Seq<Fr>,
    rs: Seq<int>,
    j: nat,
)
    requires
        messages_consistent(msgs, claims, rs),
        msgs.len() == claims.len(),
        0 < j < max_rounds(msgs, msgs.len()),
        rs.len() >= max_rounds(msgs, msgs.len()),
    ensures
        fadd(
            poly_value(batched_round(msgs, claims, coeffs, j), 0),
            poly_value(batched_round(msgs, claims, coeffs, j), 1),
        ) == poly_value(batched_round(msgs, claims, coeffs, (j - 1) as nat), rs[j - 1]),
{
    let max = max_rounds(msgs, msgs.len());
    let us = round_polys(msgs, claims, max, j);
    let ps = round_polys(msgs, claims, max, (j - 1) as nat);
    let r = rs[j - 1];
    let prev = Seq::new(ps.len(), |i: int| poly_value(ps[i], r));
    let m = batched_count(msgs.len(), coeffs.len());
    assert forall|i: int| 0 <= i < m implies #[trigger] fadd(poly_value(us[i], 0), poly_value(us[i], 1))
        == prev[i] by {
        lemma_instance_round_sum(msgs, claims, rs, i, j);
    }
    lemma_batched_round_meets_claim(us, views(coeffs), prev, m);
    lemma_batched_poly_value(ps, views(coeffs), r, m);
}

} // verus!
