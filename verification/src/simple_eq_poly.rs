//! A simple equality polynomial that stores all `2^n` evaluations of `eq(w, x)` and
//! binds its variables from low to high.
use crate::eq_poly::{eq_eval, lemma_eq_eval_extend, scale_of, EqPolynomial};
use crate::field::{
    cong, fadd, fmul, fsub, lemma_cong_ops, lemma_cong_residue, lemma_fmul_comm,
    lemma_fops_range, lemma_modulus_large, lemma_residue, pm, views, Fr,
};
use vstd::arithmetic::power2::{lemma_pow2_unfold, pow2};
use vstd::prelude::*;

verus! {

/// `eq` of two single coordinates: `a b + (1 - a)(1 - b)`.
pub open spec fn eq1(a: int, b: int) -> int {
    fadd(fmul(a, b), fmul(fsub(1, a), fsub(1, b)))
}

/// Binding a linear function with values `a` at 0 and `b` at 1 to the point `r`:
/// `a + (b - a) r`.
pub open spec fn bind_value(a: int, b: int, r: int) -> int {
    fadd(a, fmul(fsub(b, a), r))
}

/// The table obtained by binding the lowest variable of `evals` to `r`.
pub open spec fn bind_table(evals: Seq<int>, r: int) -> Seq<int> {
    Seq::new(evals.len() / 2, |i: int| bind_value(evals[2 * i], evals[2 * i + 1], r))
}

/// `evals` is the table of `c · eq(w, x)` over `{0, 1}^|w|`.
pub open spec fn is_eq_table(evals: Seq<int>, c: int, w: Seq<int>) -> bool {
    &&& evals.len() == pow2(w.len())
    &&& forall|i: int| 0 <= i < evals.len() ==> #[trigger] evals[i] == fmul(c, eq_eval(w, i as nat))
}

/// Sum over the pairs `(2i, 2i + 1)`, `i < n`, of `e[2i] f[2i]`: the round polynomial at 0.
pub open spec fn pair_sum_at_zero(e: Seq<int>, f: Seq<int>, n: nat) -> int
    decreases n,
{
    if n == 0 {
        0
    } else {
        fadd(pair_sum_at_zero(e, f, (n - 1) as nat), fmul(e[2 * n - 2], f[2 * n - 2]))
    }
}

/// Sum over `i < n` of `e[2i + 1] f[2i + 1]`: the round polynomial at 1.
pub open spec fn pair_sum_at_one(e: Seq<int>, f: Seq<int>, n: nat) -> int
    decreases n,
{
    if n == 0 {
        0
    } else {
        fadd(pair_sum_at_one(e, f, (n - 1) as nat), fmul(e[2 * n - 1], f[2 * n - 1]))
    }
}

/// The value at 2 of the line through `v[2i]` (at 0) and `v[2i + 1]` (at 1).
pub open spec fn at_two(v: Seq<int>, i: int) -> int {
    fsub(fadd(v[2 * i + 1], v[2 * i + 1]), v[2 * i])
}

/// Sum over `i < n` of the product of the two lines at 2: the round polynomial at 2.
pub open spec fn pair_sum_at_two(e: Seq<int>, f: Seq<int>, n: nat) -> int
    decreases n,
{
    if n == 0 {
        0
    } else {
        fadd(pair_sum_at_two(e, f, (n - 1) as nat), fmul(at_two(e, n - 1), at_two(f, n - 1)))
    }
}

/// `Σ_{i < m} f[i] e[i]`.
pub open spec fn weighted_sum(e: Seq<int>, f: Seq<int>, m: nat) -> int
    decreases m,
{
    if m == 0 {
        0
    } else {
        fadd(weighted_sum(e, f, (m - 1) as nat), fmul(f[m - 1], e[m - 1]))
    }
}

/// The polynomial identity behind binding an `eq` table.
proof fn lemma_bind_identity(c: int, p: int, l: int, r: int)
    ensures
        c * (p * (1 - l)) + (c * (p * l) - c * (p * (1 - l))) * r == c * (l * r + (1 - l) * (1
            - r)) * p,
{
    let a = c * p;
    assert(c * (p * (1 - l)) == a - a * l) by (nonlinear_arith)
        requires
            a == c * p,
    ;
    assert(c * (p * l) == a * l) by (nonlinear_arith)
        requires
            a == c * p,
    ;
    assert((a * l - (a - a * l)) * r == 2 * (a * l * r) - a * r) by (nonlinear_arith);
    assert(c * (l * r + (1 - l) * (1 - r)) * p == a * (1 - l - r + 2 * (l * r))) by (
    nonlinear_arith)
        requires
            a == c * p,
    ;
    assert(a * (1 - l - r + 2 * (l * r)) == a - a * l - a * r + 2 * (a * l * r)) by (
    nonlinear_arith);
}

/// Binding the lowest variable of an `eq` table to `r` gives the `eq` table of `w`
/// without its last coordinate, with the scale multiplied by `eq(w_last, r)`.
pub proof fn lemma_bind_eq_table(evals: Seq<int>, c: int, w: Seq<int>, r: int)
    requires
        w.len() > 0,
        is_eq_table(evals, c, w),
    ensures
        is_eq_table(bind_table(evals, r), fmul(c, eq1(w.last(), r)), w.drop_last()),
{
    lemma_modulus_large();
    let w2 = w.drop_last();
    let l = w.last();
    vstd::arithmetic::power2::lemma_pow2_unfold(w.len());
    assert forall|x: int| 0 <= x < bind_table(evals, r).len() implies #[trigger] bind_table(
        evals,
        r,
    )[x] == fmul(fmul(c, eq1(l, r)), eq_eval(w2, x as nat)) by {
        let p = eq_eval(w2, x as nat);
        assert((2 * x) / 2 == x && (2 * x) % 2 == 0) by (nonlinear_arith);
        assert((2 * x + 1) / 2 == x && (2 * x + 1) % 2 == 1) by (nonlinear_arith);
        assert(evals[2 * x] == fmul(c, eq_eval(w, (2 * x) as nat)));
        assert(evals[2 * x + 1] == fmul(c, eq_eval(w, (2 * x + 1) as nat)));
        let f0 = fsub(1, l);
        let f1 = l % pm();
        let e0 = fmul(c, fmul(p, f0));
        let e1 = fmul(c, fmul(p, f1));
        assert(evals[2 * x] == e0);
        assert(evals[2 * x + 1] == e1);
        // left side
        lemma_cong_ops(1, 1, l, l);
        lemma_cong_ops(p, p, f0, 1 - l);
        lemma_cong_ops(c, c, fmul(p, f0), p * (1 - l));
        lemma_cong_ops(l, l, 0, 0);
        assert(cong(f1, l)) by {
            vstd::arithmetic::div_mod::lemma_mod_twice(l, pm());
        }
        lemma_cong_ops(p, p, f1, l);
        lemma_cong_ops(c, c, fmul(p, f1), p * l);
        lemma_cong_ops(e1, c * (p * l), e0, c * (p * (1 - l)));
        let d = fsub(e1, e0);
        lemma_cong_ops(d, c * (p * l) - c * (p * (1 - l)), r, r);
        let m = fmul(d, r);
        lemma_cong_ops(e0, c * (p * (1 - l)), m, (c * (p * l) - c * (p * (1 - l))) * r);
        // right side
        lemma_cong_ops(l, l, r, r);
        lemma_cong_ops(1, 1, r, r);
        lemma_cong_ops(f0, 1 - l, fsub(1, r), 1 - r);
        lemma_cong_ops(fmul(l, r), l * r, fmul(f0, fsub(1, r)), (1 - l) * (1 - r));
        let q = eq1(l, r);
        lemma_cong_ops(c, c, q, l * r + (1 - l) * (1 - r));
        lemma_cong_ops(fmul(c, q), c * (l * r + (1 - l) * (1 - r)), p, p);
        lemma_bind_identity(c, p, l, r);
        lemma_fops_range(e0, m);
        lemma_fops_range(fmul(c, q), p);
        lemma_cong_residue(fadd(e0, m), c * (l * r + (1 - l) * (1 - r)) * p);
        lemma_cong_residue(fmul(fmul(c, q), p), c * (l * r + (1 - l) * (1 - r)) * p);
    }
}

/// The table after binding the lowest variable to each of `rs` in turn.
pub open spec fn bind_all(evals: Seq<int>, rs: Seq<int>) -> Seq<int>
    decreases rs.len(),
{
    if rs.len() == 0 {
        evals
    } else {
        bind_table(bind_all(evals, rs.drop_last()), rs.last())
    }
}

/// The scale of an `eq` table of `w` after binding to `rs`: `c` times `eq(w_i, r)` for
/// each bound pair, the last coordinate of `w` meeting the first challenge.
pub open spec fn bound_scale(c: int, w: Seq<int>, rs: Seq<int>) -> int
    decreases rs.len(),
{
    if rs.len() == 0 {
        c
    } else {
        fmul(bound_scale(c, w, rs.drop_last()), eq1(w[w.len() - rs.len()], rs.last()))
    }
}

/// After binding `k` variables of the `eq` table of `w` to `r_1, .., r_k`, the table is
/// the `eq` table of the first `n - k` coordinates of `w`, scaled by
/// `∏ eq(w_(n-i), r_i)`.
pub proof fn lemma_bind_all_eq_table(evals: Seq<int>, c: int, w: Seq<int>, rs: Seq<int>)
    requires
        rs.len() <= w.len(),
        is_eq_table(evals, c, w),
    ensures
        is_eq_table(bind_all(evals, rs), bound_scale(c, w, rs), w.take(w.len() - rs.len())),
    decreases rs.len(),
{
    if rs.len() == 0 {
        assert(w.take(w.len() as int) =~= w);
    } else {
        let k = rs.len();
        let rest = rs.drop_last();
        lemma_bind_all_eq_table(evals, c, w, rest);
        let wk = w.take(w.len() - (k - 1));
        lemma_bind_eq_table(bind_all(evals, rest), bound_scale(c, w, rest), wk, rs.last());
        assert(wk.drop_last() =~= w.take(w.len() - k));
        assert(wk.last() == w[w.len() - k]);
    }
}

/// `Σ_{i < m} t[i] · eq(q, i)`, accumulated in order of `i`.
pub open spec fn eq_weighted_sum(q: Seq<int>, t: Seq<int>, m: nat) -> int
    decreases m,
{
    if m == 0 {
        0
    } else {
        fadd(eq_weighted_sum(q, t, (m - 1) as nat), fmul(t[m - 1], eq_eval(q, (m - 1) as nat)))
    }
}

/// The multilinear extension of `table` at `rs`, the first challenge meeting the lowest
/// bit of the index: `Σ_x table[x] · eq(rs, x)`.
pub open spec fn mle_low_first(table: Seq<int>, rs: Seq<int>) -> int {
    eq_weighted_sum(rs.reverse(), table, table.len())
}

/// One binding step moves the challenge from the table into the point:
/// `Σ_{i<n} bind(t, r)[i] eq(q, i) == Σ_{y<2n} t[y] eq(q · r, y)`.
proof fn lemma_bind_step_sum(q: Seq<int>, t: Seq<int>, r: int, n: nat)
    requires
        2 * n <= t.len(),
    ensures
        eq_weighted_sum(q, bind_table(t, r), n) == eq_weighted_sum(q.push(r), t, 2 * n),
    decreases n,
{
    if n > 0 {
        lemma_bind_step_sum(q, t, r, (n - 1) as nat);
        let i = (n - 1) as nat;
        let a = t[2 * i as int];
        let b = t[2 * i as int + 1];
        let e = eq_eval(q, i);
        lemma_eq_eval_extend(q, r, i);
        let e0 = eq_eval(q.push(r), 2 * i);
        let e1 = eq_eval(q.push(r), 2 * i + 1);
        let bv = bind_value(a, b, r);
        assert(bind_table(t, r)[i as int] == bv);
        let rest = eq_weighted_sum(q, bind_table(t, r), i);
        assert(rest == eq_weighted_sum(q.push(r), t, (2 * i) as nat));
        assert(eq_weighted_sum(q.push(r), t, (2 * i + 1) as nat) == fadd(rest, fmul(a, e0)));
        assert(2 * n == 2 * i + 2);
        lemma_modulus_large();
        lemma_cong_ops(b, b, a, a);
        lemma_cong_ops(fsub(b, a), b - a, r, r);
        lemma_cong_ops(a, a, fmul(fsub(b, a), r), (b - a) * r);
        lemma_cong_ops(bv, a + (b - a) * r, e, e);
        lemma_cong_ops(rest, rest, fmul(bv, e), (a + (b - a) * r) * e);
        lemma_cong_ops(1, 1, r, r);
        lemma_cong_ops(e, e, fsub(1, r), 1 - r);
        lemma_cong_ops(a, a, e0, e * (1 - r));
        lemma_cong_ops(e, e, r, r);
        lemma_cong_ops(b, b, e1, e * r);
        lemma_cong_ops(rest, rest, fmul(a, e0), a * (e * (1 - r)));
        lemma_cong_ops(fadd(rest, fmul(a, e0)), rest + a * (e * (1 - r)), fmul(b, e1), b * (e * r));
        assert((a + (b - a) * r) * e == a * (e * (1 - r)) + b * (e * r)) by (nonlinear_arith);
        lemma_fops_range(rest, fmul(bv, e));
        lemma_fops_range(fadd(rest, fmul(a, e0)), fmul(b, e1));
        lemma_cong_residue(fadd(rest, fmul(bv, e)), rest + (a + (b - a) * r) * e);
        lemma_cong_residue(
            fadd(fadd(rest, fmul(a, e0)), fmul(b, e1)),
            rest + a * (e * (1 - r)) + b * (e * r),
        );
    }
}

/// Binding `k` of `m` variables leaves a table of `2^(m - k)` entries.
proof fn lemma_bind_all_len(t: Seq<int>, rs: Seq<int>, m: nat)
    requires
        rs.len() <= m,
        t.len() == pow2(m),
    ensures
        bind_all(t, rs).len() == pow2((m - rs.len()) as nat),
    decreases rs.len(),
{
    if rs.len() > 0 {
        lemma_bind_all_len(t, rs.drop_last(), m);
        lemma_pow2_unfold((m - rs.len() + 1) as nat);
    }
}

/// Binding moves the challenges, reversed, into the point of the weighted sum.
proof fn lemma_bind_all_sum(q: Seq<int>, t: Seq<int>, rs: Seq<int>, m: nat)
    requires
        rs.len() <= m,
        t.len() == pow2(m),
    ensures
        eq_weighted_sum(q, bind_all(t, rs), bind_all(t, rs).len()) == eq_weighted_sum(
            q + rs.reverse(),
            t,
            t.len(),
        ),
    decreases rs.len(),
{
    lemma_bind_all_len(t, rs, m);
    if rs.len() == 0 {
        assert(q + rs.reverse() =~= q);
    } else {
        let rest = rs.drop_last();
        let r = rs.last();
        let b = bind_all(t, rest);
        lemma_bind_all_len(t, rest, m);
        lemma_pow2_unfold((m - rest.len()) as nat);
        lemma_bind_step_sum(q, b, r, bind_all(t, rs).len());
        lemma_bind_all_sum(q.push(r), t, rest, m);
        assert(q.push(r) + rest.reverse() =~= q + rs.reverse());
    }
}

/// Binding every variable of a table, low to high, to `r_1, .., r_m` leaves one value:
/// the multilinear extension of the table at those challenges, `r_1` meeting the lowest
/// index bit.
pub proof fn lemma_bind_all_is_mle(table: Seq<int>, rs: Seq<int>)
    requires
        table.len() == pow2(rs.len()),
        forall|i: int| 0 <= i < table.len() ==> 0 <= #[trigger] table[i] < pm(),
    ensures
        bind_all(table, rs).len() == 1,
        bind_all(table, rs)[0] == mle_low_first(table, rs),
{
    lemma_bind_all_len(table, rs, rs.len());
    vstd::arithmetic::power2::lemma2_to64();
    lemma_bind_all_sum(Seq::empty(), table, rs, rs.len());
    assert(Seq::<int>::empty() + rs.reverse() =~= rs.reverse());
    let v = bind_all(table, rs)[0];
    lemma_modulus_large();
    if rs.len() == 0 {
        assert(v == table[0]);
    } else {
        lemma_fops_range(
            bind_all(table, rs.drop_last())[0],
            fmul(fsub(bind_all(table, rs.drop_last())[1], bind_all(table, rs.drop_last())[0]), rs.last()),
        );
    }
    lemma_residue(v);
    assert(eq_eval(Seq::<int>::empty(), 0) == 1);
    assert(fmul(v, 1) == v);
    lemma_fops_range(0, v);
    assert(fadd(0, v) == v);
    let b = bind_all(table, rs);
    assert(eq_weighted_sum(Seq::<int>::empty(), b, 0) == 0);
    assert(eq_weighted_sum(Seq::<int>::empty(), b, 1) == fadd(0, fmul(b[0], eq_eval(Seq::<int>::empty(), 0))));
}

/// The round polynomial's values at 0 and 1 add up to the claim `Σ f[i] e[i]`.
pub proof fn lemma_round_sum_is_claim(e: Seq<int>, f: Seq<int>, n: nat)
    ensures
        fadd(pair_sum_at_zero(e, f, n), pair_sum_at_one(e, f, n)) == weighted_sum(e, f, 2 * n),
    decreases n,
{
    lemma_modulus_large();
    if n == 0 {
        lemma_residue(0);
    } else {
        let m = (n - 1) as nat;
        lemma_round_sum_is_claim(e, f, m);
        let s0 = pair_sum_at_zero(e, f, m);
        let s1 = pair_sum_at_one(e, f, m);
        let a = fmul(e[2 * n - 2], f[2 * n - 2]);
        let b = fmul(e[2 * n - 1], f[2 * n - 1]);
        lemma_fmul_comm(e[2 * n - 2], f[2 * n - 2]);
        lemma_fmul_comm(e[2 * n - 1], f[2 * n - 1]);
        assert(weighted_sum(e, f, (2 * n - 1) as nat) == fadd(weighted_sum(e, f, 2 * m), a));
        assert(weighted_sum(e, f, 2 * n) == fadd(weighted_sum(e, f, (2 * n - 1) as nat), b));
        lemma_cong_ops(s0, s0, a, a);
        lemma_cong_ops(s1, s1, b, b);
        lemma_cong_ops(fadd(s0, a), s0 + a, fadd(s1, b), s1 + b);
        lemma_cong_ops(s0, s0, s1, s1);
        lemma_cong_ops(fadd(s0, s1), s0 + s1, a, a);
        lemma_cong_ops(fadd(fadd(s0, s1), a), s0 + s1 + a, b, b);
        lemma_fops_range(fadd(s0, a), fadd(s1, b));
        lemma_fops_range(fadd(fadd(s0, s1), a), b);
        lemma_cong_residue(fadd(fadd(s0, a), fadd(s1, b)), s0 + s1 + a + b);
        lemma_cong_residue(fadd(fadd(fadd(s0, s1), a), b), s0 + s1 + a + b);
    }
}

/// An equality polynomial stored as its table of evaluations.
///
/// After binding `k` variables to `r_1, .., r_k`, `evals` holds `2^(n-k)` entries: the
/// table of `eq` over the remaining coordinates of `w`, scaled by the bound factors.
#[derive(Debug, Clone)]
pub struct SimpleEqPolynomial {
    /// The current evaluations.
    pub evals: Vec<Fr>,
    /// The point `w` the table was built for.
    pub w: Vec<Fr>,
    /// Number of variables bound so far.
    pub num_bound: usize,
}

impl SimpleEqPolynomial {
    /// Views of the current evaluations.
    pub open spec fn spec_evals(&self) -> Seq<int> {
        views(self.evals@)
    }

    /// The table of `eq(w, x)` for the point `w`.
    pub fn new(w: &[Fr]) -> (r: Self)
        requires
            w.len() < usize::BITS,
        ensures
            r.w@ == w@,
            r.num_bound == 0,
            is_eq_table(r.spec_evals(), 1, views(w@)),
    {
        Self::new_with_scaling(w, None)
    }

    /// The table of `c · eq(w, x)`, `c` the scaling factor (one when absent).
    pub fn new_with_scaling(w: &[Fr], scaling_factor: Option<Fr>) -> (r: Self)
        requires
            w.len() < usize::BITS,
        ensures
            r.w@ == w@,
            r.num_bound == 0,
            is_eq_table(r.spec_evals(), scale_of(scaling_factor), views(w@)),
    {
        let evals = EqPolynomial::evals_with_scaling(w, scaling_factor);
        let mut wv: Vec<Fr> = Vec::new();
        let mut i: usize = 0;
        while i < w.len()
            invariant
                i <= w.len(),
                wv@ == w@.take(i as int),
            decreases w.len() - i,
        {
            wv.push(w[i]);
            i = i + 1;
            proof {
                assert(wv@ =~= w@.take(i as int));
            }
        }
        proof {
            assert(wv@ =~= w@);
        }
        SimpleEqPolynomial { evals, w: wv, num_bound: 0 }
    }

    /// Number of variables before any binding.
    pub fn get_num_vars(&self) -> (r: usize)
        ensures
            r == self.w.len(),
    {
        self.w.len()
    }

    /// Current number of evaluations.
    pub fn len(&self) -> (r: usize)
        ensures
            r == self.evals.len(),
    {
        self.evals.len()
    }

    /// Whether no evaluation is left.
    pub fn is_empty(&self) -> (r: bool)
        ensures
            r == (self.evals.len() == 0),
    {
        self.evals.len() == 0
    }

    /// Number of unbound variables.
    pub fn remaining_vars(&self) -> (r: usize)
        requires
            self.num_bound <= self.w.len(),
        ensures
            r == self.w.len() - self.num_bound,
    {
        self.w.len() - self.num_bound
    }

    /// Binds the lowest unbound variable to `r`: each adjacent pair `(a, b)` becomes
    /// `a + (b - a) r`.
    pub fn bind(&mut self, r: Fr)
        requires
            old(self).num_bound < usize::MAX,
        ensures
            final(self).spec_evals() == bind_table(old(self).spec_evals(), r@ as int),
            final(self).w == old(self).w,
            final(self).num_bound == old(self).num_bound + 1,
    {
        let n = self.evals.len() / 2;
        let ghost old_evals = self.spec_evals();
        let mut out: Vec<Fr> = Vec::new();
        let mut i: usize = 0;
        while i < n
            invariant
                n == self.evals.len() / 2,
                old_evals == views(self.evals@),
                i <= n,
                out.len() == i,
                forall|t: int|
                    0 <= t < i ==> #[trigger] out@[t]@ == bind_value(
                        old_evals[2 * t],
                        old_evals[2 * t + 1],
                        r@ as int,
                    ),
            decreases n - i,
        {
            let a = self.evals[2 * i];
            let b = self.evals[2 * i + 1];
            let v = a.plus(&b.minus(&a).times(&r));
            out.push(v);
            i = i + 1;
        }
        proof {
            assert(views(out@) =~= bind_table(old_evals, r@ as int));
        }
        self.evals = out;
        self.num_bound = self.num_bound + 1;
    }

    /// The evaluation at index `i`.
    pub fn get_eval(&self, i: usize) -> (r: Fr)
        requires
            i < self.evals.len(),
        ensures
            r == self.evals@[i as int],
    {
        self.evals[i]
    }

    /// All current evaluations.
    pub fn evals(&self) -> (r: &[Fr])
        ensures
            r@ == self.evals@,
    {
        self.evals.as_slice()
    }

    /// The round polynomial of the sumcheck of `Σ f(x) eq(w, x)` in the lowest unbound
    /// variable, as its values `[s(0), s(1), s(2)]`; `f` lists the values of the other
    /// factor at every index of the table. Values at 2 come from the lines through the
    /// values at 0 and 1.
    pub fn compute_sumcheck_poly(&self, f: &[Fr]) -> (r: Vec<Fr>)
        requires
            f.len() >= 2 * (self.evals.len() / 2),
        ensures
            r.len() == 3,
            r@[0]@ == pair_sum_at_zero(self.spec_evals(), views(f@), (self.evals.len() / 2) as nat),
            r@[1]@ == pair_sum_at_one(self.spec_evals(), views(f@), (self.evals.len() / 2) as nat),
            r@[2]@ == pair_sum_at_two(self.spec_evals(), views(f@), (self.evals.len() / 2) as nat),
    {
        let n = self.evals.len() / 2;
        let ghost e = self.spec_evals();
        let ghost fv = views(f@);
        let mut s0 = Fr::zero();
        let mut s1 = Fr::zero();
        let mut s2 = Fr::zero();
        let mut i: usize = 0;
        while i < n
            invariant
                n == self.evals.len() / 2,
                f.len() >= 2 * n,
                e == views(self.evals@),
                fv == views(f@),
                i <= n,
                s0@ == pair_sum_at_zero(e, fv, i as nat),
                s1@ == pair_sum_at_one(e, fv, i as nat),
                s2@ == pair_sum_at_two(e, fv, i as nat),
            decreases n - i,
        {
            let eq_0 = self.evals[2 * i];
            let eq_1 = self.evals[2 * i + 1];
            let eq_2 = eq_1.plus(&eq_1).minus(&eq_0);
            let f_0 = f[2 * i];
            let f_1 = f[2 * i + 1];
            let f_2 = f_1.plus(&f_1).minus(&f_0);
            s0 = s0.plus(&eq_0.times(&f_0));
            s1 = s1.plus(&eq_1.times(&f_1));
            s2 = s2.plus(&eq_2.times(&f_2));
            i = i + 1;
        }
        let mut r: Vec<Fr> = Vec::new();
        r.push(s0);
        r.push(s1);
        r.push(s2);
        r
    }
}

/// Binding state of a [`SimpleEqPolynomial`] during a sumcheck.
#[derive(Debug, Clone)]
#[allow(non_snake_case)]
pub struct SimpleEqCycleState {
    /// The equality polynomial of the cycle point.
    pub D: SimpleEqPolynomial,
    /// Number of variables bound during the sumcheck so far.
    pub num_variables_bound: usize,
}

impl SimpleEqCycleState {
    /// The state for the point `r_cycle`, with nothing bound.
    #[allow(non_snake_case)]
    pub fn new(r_cycle: &[Fr]) -> (r: Self)
        requires
            r_cycle.len() < usize::BITS,
        ensures
            r.D.w@ == r_cycle@,
            r.D.num_bound == 0,
            is_eq_table(r.D.spec_evals(), 1, views(r_cycle@)),
            r.num_variables_bound == 0,
    {
        let D = SimpleEqPolynomial::new(r_cycle);
        SimpleEqCycleState { D, num_variables_bound: 0 }
    }
}

} // verus!
