//! A sumcheck over the remaining variables of partially bound multilinear polynomials,
//! combined by an expression supplied by the caller.
use crate::dory_globals::is_power_of_two;
use crate::field::{cong, fadd, fsub, lemma_cong_ops, lemma_cong_residue, lemma_fops_range, lemma_modulus_large, pm, views, Fr};
use crate::sumcheck::poly_value;
use crate::simple_eq_poly::{bind_all, bind_table, bind_value, lemma_bind_all_is_mle, mle_low_first};
use vstd::arithmetic::power2::pow2;
use vstd::prelude::*;

verus! {

/// The point at which the expression is evaluated for pair `i` and abscissa `t`: each
/// polynomial restricted to the line through its values at `2i` and `2i + 1`, at `t`.
pub open spec fn line_point(polys: Seq<Seq<int>>, i: int, t: int) -> Seq<int> {
    Seq::new(polys.len(), |j: int| bind_value(polys[j][2 * i], polys[j][2 * i + 1], t))
}

/// `o` is a value the expression may return on a slice holding `point`.
pub open spec fn expr_output<E: Fn(&[Fr]) -> Fr>(expr: E, point: Seq<int>, o: Fr) -> bool {
    exists|s: &[Fr]| views(s@) == point && #[trigger] call_ensures(expr, (s,), o)
}

/// `Σ_{i < n} outs[i][t]`, accumulated in order of `i`.
pub open spec fn column_sum(outs: Seq<Seq<Fr>>, t: int, n: nat) -> int
    decreases n,
{
    if n == 0 {
        0
    } else {
        fadd(column_sum(outs, t, (n - 1) as nat), outs[n - 1][t]@ as int)
    }
}

/// `evals[1..=degree]` are the column sums of `outs`, one row per pair `(2i, 2i + 1)`
/// of the polynomials, each entry a value of the expression at its line point.
pub open spec fn message_from_outputs<E: Fn(&[Fr]) -> Fr>(
    expr: E,
    polys: Seq<Seq<int>>,
    degree: nat,
    evals: Seq<int>,
    outs: Seq<Seq<Fr>>,
) -> bool {
    &&& outs.len() == polys[0].len() / 2
    &&& forall|i: int| 0 <= i < outs.len() ==> (#[trigger] outs[i]).len() == degree + 1
    &&& forall|i: int, t: int|
        0 <= i < outs.len() && 1 <= t <= degree ==> expr_output(
            expr,
            line_point(polys, i, t),
            #[trigger] outs[i][t],
        )
    &&& forall|t: int| 1 <= t <= degree ==> #[trigger] evals[t] == column_sum(outs, t, outs.len())
}

/// Column sums over a prefix ignore what is appended.
proof fn lemma_column_sum_prefix(outs: Seq<Seq<Fr>>, row: Seq<Fr>, t: int, n: nat)
    requires
        n <= outs.len(),
    ensures
        column_sum(outs.push(row), t, n) == column_sum(outs, t, n),
    decreases n,
{
    if n > 0 {
        lemma_column_sum_prefix(outs, row, t, (n - 1) as nat);
        assert(outs.push(row)[n - 1] == outs[n - 1]);
    }
}

/// A message whose value at 0 is `previous_claim - H(1)` sums to the previous claim at
/// 0 and 1: `H(0) + H(1) == previous_claim` in the field.
pub proof fn lemma_message_meets_claim(previous_claim: int, h1: int)
    ensures
        fadd(fsub(previous_claim, h1), h1) == previous_claim % crate::field::pm(),
{
    crate::field::lemma_modulus_large();
    crate::field::lemma_cong_ops(previous_claim, previous_claim, h1, h1);
    crate::field::lemma_cong_ops(fsub(previous_claim, h1), previous_claim - h1, h1, h1);
    crate::field::lemma_fops_range(fsub(previous_claim, h1), h1);
    crate::field::lemma_cong_residue(fadd(fsub(previous_claim, h1), h1), previous_claim);
}

/// Binding at `r` moves every pair onto its line: after the binding, the polynomials'
/// values at point `i` are the line point of pair `i` at `r`, the point at which the
/// round polynomial is evaluated at `r`.
pub proof fn lemma_bound_point_is_line_point(polys: Seq<Seq<int>>, r: int, i: int)
    requires
        forall|j: int| 0 <= j < polys.len() ==> 0 <= 2 * i + 1 < (#[trigger] polys[j]).len(),
    ensures
        Seq::new(polys.len(), |j: int| bind_table(polys[j], r)[i]) == line_point(polys, i, r),
{
    assert forall|j: int| 0 <= j < polys.len() implies #[trigger] bind_table(polys[j], r)[i]
        == bind_value(polys[j][2 * i], polys[j][2 * i + 1], r) by {
        let n = polys[j].len() as int;
        assert(0 <= i < n / 2) by (nonlinear_arith)
            requires
                0 <= 2 * i + 1 < n,
        ;
    }
    assert(Seq::new(polys.len(), |j: int| bind_table(polys[j], r)[i]) =~= line_point(polys, i, r));
}

/// Views of each polynomial's evaluations.
pub open spec fn poly_views(polys: Seq<Vec<Fr>>) -> Seq<Seq<int>> {
    Seq::new(polys.len(), |j: int| views(polys[j]@))
}

/// Sumcheck over the remaining variables of several polynomials, bound low to high,
/// of `expr` applied to their values at each point.
pub struct PartiallyBoundSumcheck<E: Fn(&[Fr]) -> Fr> {
    /// The evaluations of each polynomial over its remaining variables.
    pub polys: Vec<Vec<Fr>>,
    /// Degree bound of the round polynomials.
    degree: usize,
    /// The expression, on the values of the polynomials at one point.
    expr: E,
}

impl<E: Fn(&[Fr]) -> Fr> PartiallyBoundSumcheck<E> {
    /// The evaluations of the polynomials.
    pub closed spec fn spec_polys(&self) -> Seq<Seq<int>> {
        poly_views(self.polys@)
    }

    /// The degree bound.
    pub closed spec fn spec_degree(&self) -> nat {
        self.degree as nat
    }

    /// The expression.
    pub closed spec fn spec_expr(&self) -> E {
        self.expr
    }

    /// A sumcheck over the given evaluation tables.
    pub fn new(remainder: Vec<Vec<Fr>>, degree: usize, expr: E) -> (r: Self)
        ensures
            r.spec_polys() == poly_views(remainder@),
            r.spec_degree() == degree,
            r.spec_expr() == expr,
    {
        PartiallyBoundSumcheck { polys: remainder, degree, expr }
    }

    /// The round polynomial's values at `0, 1, .., degree`: at `t >= 1` the sum over the
    /// pairs `(2i, 2i + 1)` of the expression on the polynomials' lines at `t`; at 0,
    /// `previous_claim` minus the value at 1.
    pub fn compute_message(&self, previous_claim: Fr) -> (r: Vec<Fr>)
        requires
            self.spec_polys().len() > 0,
            forall|j: int| 0 <= j < self.spec_polys().len() ==> (#[trigger] self.spec_polys()[j]).len()
                == self.spec_polys()[0].len(),
            is_power_of_two(self.spec_polys()[0].len()),
            self.spec_polys()[0].len() >= 2,
            1 <= self.spec_degree() < usize::MAX,
            forall|s: &[Fr]|
                s@.len() == self.spec_polys().len() ==> #[trigger] call_requires(self.spec_expr(), (s,)),
        ensures
            r.len() == self.spec_degree() + 1,
            r@[0]@ == fsub(previous_claim@ as int, r@[1]@ as int),
            (exists|outs: Seq<Seq<Fr>>|
                #[trigger] message_from_outputs(
                    self.spec_expr(),
                    self.spec_polys(),
                    self.spec_degree(),
                    views(r@),
                    outs,
                )),
    {
        proof {
            assert(self.spec_polys()[0] == views(self.polys@[0]@));
            assert forall|j: int| 0 <= j < self.polys.len() implies #[trigger] self.polys@[j].len()
                == self.polys@[0].len() by {
                assert(self.spec_polys()[j] == views(self.polys@[j]@));
            }
        }
        let len = self.polys[0].len();
        let num = self.polys.len();
        let degree = self.degree;
        let ghost polys = self.spec_polys();
        let mut evals: Vec<Fr> = Vec::new();
        let mut t0: usize = 0;
        while t0 <= degree
            invariant
                degree < usize::MAX,
                t0 <= degree + 1,
                evals.len() == t0,
                forall|t: int| 0 <= t < t0 ==> #[trigger] evals@[t]@ == 0,
            decreases degree + 1 - t0,
        {
            evals.push(Fr::zero());
            t0 = t0 + 1;
        }
        let half = len / 2;
        let ghost mut outs: Seq<Seq<Fr>> = Seq::empty();
        let mut i: usize = 0;
        while i < half
            invariant
                num == self.polys.len(),
                len == self.polys@[0].len(),
                degree == self.degree,
                degree < usize::MAX,
                half == len / 2,
                polys == self.spec_polys(),
                forall|j: int| 0 <= j < num ==> #[trigger] self.polys@[j].len() == len,
                forall|s: &[Fr]| s@.len() == num ==> #[trigger] call_requires(self.spec_expr(), (s,)),
                i <= half,
                evals.len() == degree + 1,
                outs.len() == i,
                forall|a: int| 0 <= a < i ==> (#[trigger] outs[a]).len() == degree + 1,
                forall|a: int, t: int|
                    0 <= a < i && 1 <= t <= degree ==> expr_output(
                        self.expr,
                        line_point(polys, a, t),
                        #[trigger] outs[a][t],
                    ),
                forall|t: int| 1 <= t <= degree ==> #[trigger] evals@[t]@ == column_sum(outs, t, i as nat),
            decreases half - i,
        {
            let mut a: Vec<Fr> = Vec::new();
            let mut m: Vec<Fr> = Vec::new();
            let mut j: usize = 0;
            while j < num
                invariant
                    num == self.polys.len(),
                    len == self.polys@[0].len(),
                    half == len / 2,
                    i < half,
                    polys == self.spec_polys(),
                    forall|k: int| 0 <= k < num ==> #[trigger] self.polys@[k].len() == len,
                    j <= num,
                    a.len() == j,
                    m.len() == j,
                    forall|k: int| 0 <= k < j ==> #[trigger] a@[k]@ == polys[k][2 * i],
                    forall|k: int| 0 <= k < j ==> #[trigger] m@[k]@ == fsub(
                        polys[k][2 * i + 1],
                        polys[k][2 * i],
                    ),
                decreases num - j,
            {
                let p = &self.polys[j];
                proof {
                    assert(self.polys@[j as int].len() == len);
                }
                let f0 = p[2 * i];
                let f1 = p[2 * i + 1];
                proof {
                    assert(polys[j as int] == views(self.polys@[j as int]@));
                }
                a.push(f0);
                m.push(f1.minus(&f0));
                j = j + 1;
            }
            let zero = Fr::zero();
            let ghost mut row: Seq<Fr> = Seq::new((degree + 1) as nat, |t: int| zero);
            let mut t: usize = 1;
            while t <= degree
                invariant
                    num == self.polys.len(),
                    degree == self.degree,
                    degree < usize::MAX,
                    polys == self.spec_polys(),
                    polys.len() == num,
                    forall|s: &[Fr]| s@.len() == num ==> #[trigger] call_requires(self.spec_expr(), (s,)),
                    1 <= t <= degree + 1,
                    a.len() == num,
                    m.len() == num,
                    forall|k: int| 0 <= k < num ==> #[trigger] a@[k]@ == polys[k][2 * i],
                    forall|k: int| 0 <= k < num ==> #[trigger] m@[k]@ == fsub(
                        polys[k][2 * i + 1],
                        polys[k][2 * i],
                    ),
                    evals.len() == degree + 1,
                    row.len() == degree + 1,
                    outs.len() == i,
                    forall|u: int|
                        1 <= u < t ==> expr_output(
                            self.expr,
                            line_point(polys, i as int, u),
                            #[trigger] row[u],
                        ),
                    forall|u: int| 1 <= u < t ==> #[trigger] evals@[u]@ == fadd(
                        column_sum(outs, u, i as nat),
                        row[u]@ as int,
                    ),
                    forall|u: int| t <= u <= degree ==> #[trigger] evals@[u]@ == column_sum(
                        outs,
                        u,
                        i as nat,
                    ),
                decreases degree + 1 - t,
            {
                let tf = Fr::from_u64(t as u64);
                let mut vals: Vec<Fr> = Vec::new();
                let mut k: usize = 0;
                while k < num
                    invariant
                        k <= num,
                        a.len() == num,
                        m.len() == num,
                        vals.len() == k,
                        forall|q: int| 0 <= q < k ==> #[trigger] vals@[q]@ == fadd(
                            a@[q]@ as int,
                            crate::field::fmul(m@[q]@ as int, tf@ as int),
                        ),
                    decreases num - k,
                {
                    vals.push(a[k].plus(&m[k].times(&tf)));
                    k = k + 1;
                }
                let vs = vals.as_slice();
                proof {
                    assert(vs@.len() == num);
                    assert(call_requires(self.spec_expr(), (vs,)));
                }
                let o = (self.expr)(vs);
                proof {
                    assert(views(vs@) =~= line_point(polys, i as int, t as int));
                    assert(call_ensures(self.expr, (vs,), o));
                    assert(expr_output(self.expr, line_point(polys, i as int, t as int), o));
                    row = row.update(t as int, o);
                }
                let updated = evals[t].plus(&o);
                evals.set(t, updated);
                t = t + 1;
            }
            proof {
                let old_outs = outs;
                outs = outs.push(row);
                assert forall|u: int| 1 <= u <= degree implies #[trigger] evals@[u]@
                    == column_sum(outs, u, (i + 1) as nat) by {
                    assert(outs[i as int] == row);
                    lemma_column_sum_prefix(old_outs, row, u, i as nat);
                }
            }
            i = i + 1;
        }
        let v1 = evals[1];
        evals.set(0, previous_claim.minus(&v1));
        proof {
            assert(polys[0] == views(self.polys@[0]@));
            assert(message_from_outputs(self.expr, polys, degree as nat, views(evals@), outs));
            assert(message_from_outputs(
                self.spec_expr(),
                self.spec_polys(),
                self.spec_degree(),
                views(evals@),
                outs,
            ));
        }
        evals
    }

    /// Binds the lowest remaining variable of every polynomial to `r_j`.
    pub fn ingest_challenge(&mut self, r_j: Fr)
        requires
            forall|k: int| 0 <= k < old(self).spec_polys().len() ==> (#[trigger] old(self).spec_polys()[k]).len() >= 2,
        ensures
            final(self).spec_polys().len() == old(self).spec_polys().len(),
            forall|k: int|
                0 <= k < old(self).spec_polys().len() ==> #[trigger] final(self).spec_polys()[k]
                    == bind_table(old(self).spec_polys()[k], r_j@ as int),
            final(self).spec_degree() == old(self).spec_degree(),
            final(self).spec_expr() == old(self).spec_expr(),
    {
        let num = self.polys.len();
        let mut bound: Vec<Vec<Fr>> = Vec::new();
        let mut k: usize = 0;
        while k < num
            invariant
                num == self.polys.len(),
                k <= num,
                bound.len() == k,
                forall|q: int| 0 <= q < k ==> #[trigger] views(bound@[q]@) == bind_table(
                    views(self.polys@[q]@),
                    r_j@ as int,
                ),
            decreases num - k,
        {
            let p = &self.polys[k];
            let n = p.len() / 2;
            let mut out: Vec<Fr> = Vec::new();
            let mut i: usize = 0;
            while i < n
                invariant
                    n == p.len() / 2,
                    i <= n,
                    out.len() == i,
                    forall|q: int| 0 <= q < i ==> #[trigger] out@[q]@ == bind_value(
                        p@[2 * q]@ as int,
                        p@[2 * q + 1]@ as int,
                        r_j@ as int,
                    ),
                decreases n - i,
            {
                let a = p[2 * i];
                let b = p[2 * i + 1];
                out.push(a.plus(&b.minus(&a).times(&r_j)));
                i = i + 1;
            }
            proof {
                assert(views(out@) =~= bind_table(views(p@), r_j@ as int));
            }
            bound.push(out);
            k = k + 1;
        }
        proof {
            assert(poly_views(bound@) =~= Seq::new(
                num as nat,
                |q: int| bind_table(views(self.polys@[q]@), r_j@ as int),
            ));
        }
        self.polys = bound;
    }

    /// The value left in each polynomial once all its variables are bound.
    pub fn final_poly_claims(&self) -> (r: Vec<Fr>)
        requires
            forall|k: int| 0 <= k < self.spec_polys().len() ==> (#[trigger] self.spec_polys()[k]).len() == 1,
        ensures
            r.len() == self.spec_polys().len(),
            forall|k: int| 0 <= k < r.len() ==> #[trigger] r@[k]@ == self.spec_polys()[k][0],
    {
        proof {
            assert forall|q: int| 0 <= q < self.polys.len() implies #[trigger] self.polys@[q].len()
                == 1 by {
                assert(self.spec_polys()[q] == views(self.polys@[q]@));
            }
        }
        let mut r: Vec<Fr> = Vec::new();
        let mut k: usize = 0;
        while k < self.polys.len()
            invariant
                k <= self.polys.len(),
                r.len() == k,
                forall|q: int| 0 <= q < self.polys.len() ==> #[trigger] self.polys@[q].len() == 1,
                forall|q: int| 0 <= q < k ==> #[trigger] r@[q]@ == self.spec_polys()[q][0],
            decreases self.polys.len() - k,
        {
            proof {
                assert(self.polys@[k as int].len() == 1);
                assert(self.spec_polys()[k as int] == views(self.polys@[k as int]@));
            }
            r.push(self.polys[k][0]);
            k = k + 1;
        }
        r
    }
}

/// Binding every variable, one `ingest_challenge` per round, ends in the multilinear
/// extension: if `states[k + 1]` is `states[k]` after `ingest_challenge(rs[k])` and
/// polynomial `j` starts with `2^m` evaluations (`m` rounds), then after the `m` rounds
/// it holds one value, its multilinear extension at `rs`, `rs[0]` meeting the lowest
/// index bit; that value is what `final_poly_claims` returns for it.
pub proof fn lemma_rounds_end_in_mle<E: Fn(&[Fr]) -> Fr>(
    states: Seq<PartiallyBoundSumcheck<E>>,
    rs: Seq<int>,
    j: int,
)
    requires
        states.len() == rs.len() + 1,
        0 <= j < states[0].spec_polys().len(),
        forall|k: int|
            0 <= k < rs.len() ==> (#[trigger] states[k + 1]).spec_polys().len() == states[k].spec_polys().len()
                && forall|q: int|
                0 <= q < states[k].spec_polys().len() ==> #[trigger] states[k + 1].spec_polys()[q]
                    == bind_table(states[k].spec_polys()[q], rs[k]),
        states[0].spec_polys()[j].len() == pow2(rs.len()),
        forall|x: int|
            0 <= x < states[0].spec_polys()[j].len() ==> 0 <= #[trigger] states[0].spec_polys()[j][x]
                < pm(),
    ensures
        states[rs.len() as int].spec_polys()[j].len() == 1,
        states[rs.len() as int].spec_polys()[j][0] == mle_low_first(states[0].spec_polys()[j], rs),
{
    let t = states[0].spec_polys()[j];
    assert forall|k: int| 0 <= k <= rs.len() implies {
        &&& j < (#[trigger] states[k]).spec_polys().len()
        &&& states[k].spec_polys()[j] == bind_all(t, rs.take(k))
    } by {
        lemma_rounds_bind_all(states, rs, j, k);
    }
    assert(rs.take(rs.len() as int) =~= rs);
    lemma_bind_all_is_mle(t, rs);
}

proof fn lemma_rounds_bind_all<E: Fn(&[Fr]) -> Fr>(
    states: Seq<PartiallyBoundSumcheck<E>>,
    rs: Seq<int>,
    j: int,
    k: int,
)
    requires
        states.len() == rs.len() + 1,
        0 <= j < states[0].spec_polys().len(),
        0 <= k <= rs.len(),
        forall|k: int|
            0 <= k < rs.len() ==> (#[trigger] states[k + 1]).spec_polys().len() == states[k].spec_polys().len()
                && forall|q: int|
                0 <= q < states[k].spec_polys().len() ==> #[trigger] states[k + 1].spec_polys()[q]
                    == bind_table(states[k].spec_polys()[q], rs[k]),
    ensures
        j < states[k].spec_polys().len(),
        states[k].spec_polys()[j] == bind_all(states[0].spec_polys()[j], rs.take(k)),
    decreases k,
{
    let t = states[0].spec_polys()[j];
    if k == 0 {
        assert(rs.take(0) =~= Seq::<int>::empty());
    } else {
        lemma_rounds_bind_all(states, rs, j, k - 1);
        assert(states[(k - 1) + 1].spec_polys()[j] == bind_table(states[k - 1].spec_polys()[j], rs[k - 1]));
        assert(rs.take(k).drop_last() =~= rs.take(k - 1));
        assert(rs.take(k).last() == rs[k - 1]);
    }
}

/// Every value the expression may return on a slice is `f` of the slice's values.
pub open spec fn expr_is<E: Fn(&[Fr]) -> Fr>(expr: E, f: spec_fn(Seq<int>) -> int) -> bool {
    forall|s: &[Fr], o: Fr| #[trigger] call_ensures(expr, (s,), o) ==> o@ == f(views(s@))
}

/// `Σ_{i < n} f(line_point(polys, i, t))`: the round sum at `t`, accumulated in order.
pub open spec fn line_sum(f: spec_fn(Seq<int>) -> int, polys: Seq<Seq<int>>, t: int, n: nat) -> int
    decreases n,
{
    if n == 0 {
        0
    } else {
        fadd(line_sum(f, polys, t, (n - 1) as nat), f(line_point(polys, n - 1, t)))
    }
}

/// The polynomials' values at index `x`.
pub open spec fn hypercube_point(polys: Seq<Seq<int>>, x: int) -> Seq<int> {
    Seq::new(polys.len(), |j: int| polys[j][x])
}

/// `Σ_{x < n} f(hypercube_point(polys, x))`, accumulated in order.
pub open spec fn point_sum(f: spec_fn(Seq<int>) -> int, polys: Seq<Seq<int>>, n: nat) -> int
    decreases n,
{
    if n == 0 {
        0
    } else {
        fadd(point_sum(f, polys, (n - 1) as nat), f(hypercube_point(polys, n - 1)))
    }
}

/// With a deterministic expression, the message's column sums are the round sums.
proof fn lemma_column_sum_is_line_sum<E: Fn(&[Fr]) -> Fr>(
    expr: E,
    f: spec_fn(Seq<int>) -> int,
    polys: Seq<Seq<int>>,
    degree: nat,
    evals: Seq<int>,
    outs: Seq<Seq<Fr>>,
    t: int,
    n: nat,
)
    requires
        message_from_outputs(expr, polys, degree, evals, outs),
        expr_is(expr, f),
        1 <= t <= degree,
        n <= outs.len(),
    ensures
        column_sum(outs, t, n) == line_sum(f, polys, t, n),
    decreases n,
{
    if n > 0 {
        lemma_column_sum_is_line_sum(expr, f, polys, degree, evals, outs, t, (n - 1) as nat);
        let i = n - 1;
        let o = outs[i][t];
        assert(expr_output(expr, line_point(polys, i, t), o));
        let s = choose|s: &[Fr]| views(s@) == line_point(polys, i, t) && #[trigger] call_ensures(expr, (s,), o);
        assert(call_ensures(expr, (s,), o));
    }
}

/// After binding at `r`, the sum over the remaining points is the round sum at `r`.
proof fn lemma_point_sum_is_line_sum(f: spec_fn(Seq<int>) -> int, polys: Seq<Seq<int>>, r: int, n: nat, h: nat)
    requires
        n <= h,
        forall|j: int| 0 <= j < polys.len() ==> 2 * h <= (#[trigger] polys[j]).len(),
    ensures
        point_sum(f, Seq::new(polys.len(), |j: int| bind_table(polys[j], r)), n) == line_sum(f, polys, r, n),
    decreases n,
{
    if n > 0 {
        lemma_point_sum_is_line_sum(f, polys, r, (n - 1) as nat, h);
        let bound = Seq::new(polys.len(), |j: int| bind_table(polys[j], r));
        lemma_bound_point_is_line_point(polys, r, n - 1);
        assert(hypercube_point(bound, n - 1) =~= Seq::new(polys.len(), |j: int| bind_table(polys[j], r)[n - 1]));
    }
}

/// A round of the sumcheck checks out at the challenge: when the expression is a
/// function `f` and the round sum `t ↦ Σ_i f(line_point(polys, i, t))` is the
/// polynomial `p` of degree at most `degree`, and the previous claim is `p(0) + p(1)`,
/// then the message of `compute_message` holds `p`'s values at `0, .., degree` (so it
/// is `p` in evaluation form), and after `ingest_challenge(r)` the sum of `f` over the
/// remaining points is `p(r)`, the claim of the next round.
pub proof fn lemma_round_checks_out_at_challenge<E: Fn(&[Fr]) -> Fr>(
    before: PartiallyBoundSumcheck<E>,
    after: PartiallyBoundSumcheck<E>,
    evals: Seq<int>,
    previous_claim: int,
    f: spec_fn(Seq<int>) -> int,
    p: Seq<int>,
    r: int,
)
    requires
        before.spec_polys().len() > 0,
        forall|j: int|
            0 <= j < before.spec_polys().len() ==> (#[trigger] before.spec_polys()[j]).len()
                == before.spec_polys()[0].len(),
        before.spec_degree() >= 1,
        evals.len() == before.spec_degree() + 1,
        evals[0] == fsub(previous_claim, evals[1]),
        exists|outs: Seq<Seq<Fr>>|
            #[trigger] message_from_outputs(
                before.spec_expr(),
                before.spec_polys(),
                before.spec_degree(),
                evals,
                outs,
            ),
        after.spec_polys() == Seq::new(
            before.spec_polys().len(),
            |j: int| bind_table(before.spec_polys()[j], r),
        ),
        expr_is(before.spec_expr(), f),
        p.len() <= before.spec_degree() + 1,
        forall|t: int| #[trigger] line_sum(f, before.spec_polys(), t, before.spec_polys()[0].len() / 2) == poly_value(p, t),
        previous_claim % pm() == fadd(poly_value(p, 0), poly_value(p, 1)),
    ensures
        forall|t: int| 0 <= t <= before.spec_degree() ==> #[trigger] evals[t] == poly_value(p, t),
        point_sum(f, after.spec_polys(), before.spec_polys()[0].len() / 2) == poly_value(p, r),
{
    lemma_modulus_large();
    let polys = before.spec_polys();
    let h = polys[0].len() / 2;
    let d = before.spec_degree();
    let outs = choose|outs: Seq<Seq<Fr>>|
        #[trigger] message_from_outputs(before.spec_expr(), polys, d, evals, outs);
    assert forall|t: int| 1 <= t <= d implies #[trigger] evals[t] == poly_value(p, t) by {
        lemma_column_sum_is_line_sum(before.spec_expr(), f, polys, d, evals, outs, t, h);
        assert(line_sum(f, polys, t, h) == poly_value(p, t));
    }
    // at 0: previous_claim - p(1) == p(0)
    let v0 = poly_value(p, 0);
    let v1 = poly_value(p, 1);
    assert(evals[1] == v1);
    assert(0 <= v0 < pm()) by {
        vstd::arithmetic::div_mod::lemma_mod_bound(crate::sumcheck::poly_sum(p, 0, p.len()), pm());
    }
    assert(0 <= v1 < pm()) by {
        vstd::arithmetic::div_mod::lemma_mod_bound(crate::sumcheck::poly_sum(p, 1, p.len()), pm());
    }
    lemma_cong_ops(v0, v0, v1, v1);
    assert(cong(previous_claim, v0 + v1));
    lemma_cong_ops(previous_claim, v0 + v1, v1, v1);
    lemma_fops_range(previous_claim, v1);
    lemma_cong_residue(fsub(previous_claim, v1), v0);
    crate::field::lemma_residue(v0);
    assert forall|j: int| 0 <= j < polys.len() implies 2 * h <= (#[trigger] polys[j]).len() by {
        assert(polys[j].len() == polys[0].len());
    }
    lemma_point_sum_is_line_sum(f, polys, r, h, h);
}

/// The line of pair `i` passes through the pair's points: at 0 it is point `2i`, at 1
/// point `2i + 1` (the entries being residues).
proof fn lemma_line_ends(polys: Seq<Seq<int>>, i: int)
    requires
        forall|j: int| 0 <= j < polys.len() ==> 2 * i + 1 < (#[trigger] polys[j]).len(),
        forall|j: int, x: int|
            0 <= j < polys.len() && 0 <= x < polys[j].len() ==> 0 <= #[trigger] polys[j][x] < pm(),
        0 <= i,
    ensures
        line_point(polys, i, 0) == hypercube_point(polys, 2 * i),
        line_point(polys, i, 1) == hypercube_point(polys, 2 * i + 1),
{
    lemma_modulus_large();
    assert forall|j: int| 0 <= j < polys.len() implies #[trigger] bind_value(polys[j][2 * i], polys[j][2 * i + 1], 0)
        == polys[j][2 * i] && bind_value(polys[j][2 * i], polys[j][2 * i + 1], 1) == polys[j][2 * i + 1] by {
        let a = polys[j][2 * i];
        let b = polys[j][2 * i + 1];
        lemma_cong_ops(b, b, a, a);
        lemma_cong_ops(fsub(b, a), b - a, 0, 0);
        lemma_cong_ops(fsub(b, a), b - a, 1, 1);
        lemma_cong_ops(a, a, crate::field::fmul(fsub(b, a), 0), 0);
        lemma_cong_ops(a, a, crate::field::fmul(fsub(b, a), 1), b - a);
        lemma_fops_range(a, crate::field::fmul(fsub(b, a), 0));
        lemma_fops_range(a, crate::field::fmul(fsub(b, a), 1));
        lemma_cong_residue(bind_value(a, b, 0), a);
        lemma_cong_residue(bind_value(a, b, 1), b);
        crate::field::lemma_residue(a);
        crate::field::lemma_residue(b);
    }
    assert forall|j: int| 0 <= j < polys.len() implies #[trigger] line_point(polys, i, 1)[j] == polys[j][2 * i + 1] by {
        assert(bind_value(polys[j][2 * i], polys[j][2 * i + 1], 0) == polys[j][2 * i]);
    }
    assert forall|j: int| 0 <= j < polys.len() implies #[trigger] line_point(polys, i, 0)[j] == polys[j][2 * i] by {
        assert(bind_value(polys[j][2 * i], polys[j][2 * i + 1], 0) == polys[j][2 * i]);
    }
    assert(line_point(polys, i, 0) =~= hypercube_point(polys, 2 * i));
    assert(line_point(polys, i, 1) =~= hypercube_point(polys, 2 * i + 1));
}

/// The sum over all `2n` points splits into the round sums at 0 and at 1.
proof fn lemma_point_sum_splits(f: spec_fn(Seq<int>) -> int, polys: Seq<Seq<int>>, n: nat)
    requires
        forall|j: int| 0 <= j < polys.len() ==> 2 * n <= (#[trigger] polys[j]).len(),
        forall|j: int, x: int|
            0 <= j < polys.len() && 0 <= x < polys[j].len() ==> 0 <= #[trigger] polys[j][x] < pm(),
    ensures
        point_sum(f, polys, 2 * n) == fadd(line_sum(f, polys, 0, n), line_sum(f, polys, 1, n)),
    decreases n,
{
    lemma_modulus_large();
    if n == 0 {
        crate::field::lemma_residue(0);
    } else {
        let k = (n - 1) as nat;
        lemma_point_sum_splits(f, polys, k);
        lemma_line_ends(polys, k as int);
        let a = line_sum(f, polys, 0, k);
        let b = line_sum(f, polys, 1, k);
        let x = f(hypercube_point(polys, 2 * k as int));
        let y = f(hypercube_point(polys, 2 * k as int + 1));
        assert(point_sum(f, polys, (2 * k + 1) as nat) == fadd(fadd(a, b), x));
        assert(point_sum(f, polys, 2 * n) == fadd(fadd(fadd(a, b), x), y));
        lemma_cong_ops(a, a, b, b);
        lemma_cong_ops(fadd(a, b), a + b, x, x);
        lemma_cong_ops(fadd(fadd(a, b), x), a + b + x, y, y);
        lemma_cong_ops(a, a, x, x);
        lemma_cong_ops(b, b, y, y);
        lemma_cong_ops(fadd(a, x), a + x, fadd(b, y), b + y);
        lemma_fops_range(fadd(fadd(a, b), x), y);
        lemma_fops_range(fadd(a, x), fadd(b, y));
        lemma_cong_residue(fadd(fadd(fadd(a, b), x), y), a + b + x + y);
        lemma_cong_residue(fadd(fadd(a, x), fadd(b, y)), a + b + x + y);
    }
}

/// A round of the sumcheck checks out at the challenge, from the claim as the sum over
/// the tables: when the expression is a function `f`, the previous claim is
/// `Σ_x f(p(x))` over all points of the tables, and the round sum
/// `t ↦ Σ_i f(line_point(polys, i, t))` is the polynomial `H` of degree at most
/// `degree`, then the message of `compute_message` holds `H`'s values at
/// `0, .., degree`, and after `ingest_challenge(r)` the new tables sum to `H(r)`.
pub proof fn lemma_bound_tables_sum_to_round_poly<E: Fn(&[Fr]) -> Fr>(
    before: PartiallyBoundSumcheck<E>,
    after: PartiallyBoundSumcheck<E>,
    evals: Seq<int>,
    previous_claim: int,
    f: spec_fn(Seq<int>) -> int,
    h: Seq<int>,
    r: int,
)
    requires
        before.spec_polys().len() > 0,
        forall|j: int|
            0 <= j < before.spec_polys().len() ==> (#[trigger] before.spec_polys()[j]).len()
                == before.spec_polys()[0].len(),
        before.spec_polys()[0].len() % 2 == 0,
        before.spec_degree() >= 1,
        evals.len() == before.spec_degree() + 1,
        evals[0] == fsub(previous_claim, evals[1]),
        exists|outs: Seq<Seq<Fr>>|
            #[trigger] message_from_outputs(
                before.spec_expr(),
                before.spec_polys(),
                before.spec_degree(),
                evals,
                outs,
            ),
        after.spec_polys() == Seq::new(
            before.spec_polys().len(),
            |j: int| bind_table(before.spec_polys()[j], r),
        ),
        expr_is(before.spec_expr(), f),
        h.len() <= before.spec_degree() + 1,
        forall|t: int| #[trigger] line_sum(f, before.spec_polys(), t, before.spec_polys()[0].len() / 2) == poly_value(h, t),
        previous_claim % pm() == point_sum(f, before.spec_polys(), before.spec_polys()[0].len()),
    ensures
        forall|t: int| 0 <= t <= before.spec_degree() ==> #[trigger] evals[t] == poly_value(h, t),
        point_sum(f, after.spec_polys(), before.spec_polys()[0].len() / 2) == poly_value(h, r),
{
    let polys = before.spec_polys();
    let n = (polys[0].len() / 2) as nat;
    assert forall|j: int, x: int|
        0 <= j < polys.len() && 0 <= x < polys[j].len() implies 0 <= #[trigger] polys[j][x] < pm() by {
        assert(polys[j] == views(before.polys@[j]@));
        crate::field::lemma_fr_view_range(before.polys@[j]@[x]);
    }
    assert forall|j: int| 0 <= j < polys.len() implies 2 * n <= (#[trigger] polys[j]).len() by {
        assert(polys[j].len() == polys[0].len());
    }
    lemma_point_sum_splits(f, polys, n);
    assert(2 * n == polys[0].len());
    assert(line_sum(f, polys, 0, n) == poly_value(h, 0));
    assert(line_sum(f, polys, 1, n) == poly_value(h, 1));
    lemma_round_checks_out_at_challenge(before, after, evals, previous_claim, f, h, r);
}

} // verus!
