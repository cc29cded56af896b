//! A space-efficient prover for the sumcheck of a product `Σ p(x) (c + q(x))` of two
//! streamed multilinear polynomials.
use crate::eq_poly::{eq_table, EqPolynomial};
use crate::field::{
    fadd, fmul, fsub, lemma_cong_ops, lemma_cong_residue, lemma_fops_range,
    lemma_modulus_large, lemma_residue, pm, views, Fr,
};
use crate::math::{ceil_log2, lemma_usize_bits, log_2, pow2_usize};
use crate::stream::{lemma_lagrange_stream_is_eq_table, lemma_lagrange_stream_ok, step_ok, FunctionStream, LagrangeBasisStream};
use vstd::arithmetic::power2::{lemma_pow2_adds, lemma_pow2_pos, pow2};
use vstd::bits::lemma_usize_shl_is_mul;
use vstd::prelude::*;

verus! {

/// Or-ing a value below `2^t` into a left shift by `t` adds it.
proof fn lemma_shl_or_is_add(a: usize, b: usize, t: usize)
    requires
        t < usize::BITS,
        b < (1usize << t),
    ensures
        ((a << t) | b) == (a << t) + b,
{
    assert(((a << t) | b) == (a << t) + b) by (bit_vector)
        requires
            t < usize::BITS,
            b < (1usize << t),
    ;
}

/// Two shifts by a common amount may be or-ed before shifting.
proof fn lemma_shl_or_factor(x: usize, y: usize, s: usize, t: usize)
    requires
        s + t < usize::BITS,
    ensures
        ((x << ((s + t) as usize)) | (y << t)) == (((x << s) | y) << t),
{
    let u = (s + t) as usize;
    assert((x << u) == ((x << s) << t)) by (bit_vector)
        requires
            u == s + t,
            s + t < usize::BITS,
    ;
    let a = x << s;
    assert(((a << t) | (y << t)) == ((a | y) << t)) by (bit_vector)
        requires
            t < usize::BITS,
    ;
}

/// Views of a table of field elements, row by row.
pub open spec fn table_views(m: Seq<Vec<Fr>>) -> Seq<Seq<int>> {
    Seq::new(m.len(), |i: int| views(m[i]@))
}

/// The value at 2 of the bilinear function with values `m00, m01, m10, m11` at the
/// corners of `{0, 1}^2`, on the diagonal: `m00 - 2 m01 - 2 m10 + 4 m11`.
pub open spec fn diagonal_at_two(m00: int, m01: int, m10: int, m11: int) -> int {
    (m00 - 2 * m01 - 2 * m10 + 4 * m11) % pm()
}

/// What a round of the product sumcheck reads: the table `eq(r', ·)` of the challenges
/// since the state was computed, the state table, `low = j - j'` and the number `rest`
/// of high index values.
pub struct RoundInputs {
    pub chi: Seq<int>,
    pub table: Seq<Seq<int>>,
    pub low: nat,
    pub rest: nat,
}

/// The state-table index `(b, bit, low_bits)`: `b · 2^(low+1) + bit · 2^low + low_bits`.
pub open spec fn round_index(ri: RoundInputs, b: nat, bit: nat, low_bits: nat) -> int {
    (b * pow2(ri.low + 1) + bit * pow2(ri.low) + low_bits) as int
}

/// The term of `(b1, b2, b)` in the round value at 0 (`which == 0`), 1 (`which == 1`)
/// or 2 (otherwise).
pub open spec fn round_term(ri: RoundInputs, which: nat, b1: nat, b2: nat, b: nat) -> int {
    let c = fmul(ri.chi[b1 as int], ri.chi[b2 as int]);
    let m00 = ri.table[round_index(ri, b, 0, b1)][round_index(ri, b, 0, b2)];
    let m01 = ri.table[round_index(ri, b, 0, b1)][round_index(ri, b, 1, b2)];
    let m10 = ri.table[round_index(ri, b, 1, b1)][round_index(ri, b, 0, b2)];
    let m11 = ri.table[round_index(ri, b, 1, b1)][round_index(ri, b, 1, b2)];
    if which == 0 {
        fmul(c, m00)
    } else if which == 1 {
        fmul(c, m11)
    } else {
        fmul(c, diagonal_at_two(m00, m01, m10, m11))
    }
}

/// The running sum of the round terms over `b1`, then `b2`, then `b` (innermost), up
/// to but excluding `(b1, b2, nb)`.
pub open spec fn round_acc(ri: RoundInputs, which: nat, b1: nat, b2: nat, nb: nat) -> int
    decreases b1, b2, nb,
{
    if nb > 0 {
        fadd(round_acc(ri, which, b1, b2, (nb - 1) as nat), round_term(ri, which, b1, b2, (nb - 1) as nat))
    } else if b2 > 0 {
        round_acc(ri, which, b1, (b2 - 1) as nat, ri.rest)
    } else if b1 > 0 {
        round_acc(ri, which, (b1 - 1) as nat, (pow2(ri.low) - 1) as nat, ri.rest)
    } else {
        0
    }
}

/// The round value: the sum of all terms, `b1, b2 < 2^low`, `b < rest`.
pub open spec fn round_value(ri: RoundInputs, which: nat) -> int {
    round_acc(ri, which, pow2(ri.low), 0, 0)
}

/// `(m00 (1-z)^2 + m01 z(1-z) + m10 z(1-z) + m11 z^2)` at `z = 2`.
proof fn lemma_diagonal_at_two(m00: int, m01: int, m10: int, m11: int, a: int, zo: int, zz: int)
    requires
        a == fmul(fsub(1, 2), fsub(1, 2)),
        zo == fmul(2, fsub(1, 2)),
        zz == fmul(2, 2),
    ensures
        fadd(fadd(fadd(fmul(m00, a), fmul(m01, zo)), fmul(m10, zo)), fmul(m11, zz))
            == diagonal_at_two(m00, m01, m10, m11),
{
    lemma_modulus_large();
    lemma_cong_ops(1, 1, 2, 2);
    lemma_cong_ops(fsub(1, 2), -1, fsub(1, 2), -1);
    lemma_cong_ops(2, 2, fsub(1, 2), -1);
    lemma_cong_ops(2, 2, 2, 2);
    lemma_cong_ops(m00, m00, a, 1);
    lemma_cong_ops(m01, m01, zo, -2);
    lemma_cong_ops(m10, m10, zo, -2);
    lemma_cong_ops(m11, m11, zz, 4);
    let t0 = fmul(m00, a);
    let t1 = fmul(m01, zo);
    let t2 = fmul(m10, zo);
    let t3 = fmul(m11, zz);
    lemma_cong_ops(t0, m00 * 1, t1, m01 * -2);
    lemma_cong_ops(fadd(t0, t1), m00 * 1 + m01 * -2, t2, m10 * -2);
    lemma_cong_ops(fadd(fadd(t0, t1), t2), m00 * 1 + m01 * -2 + m10 * -2, t3, m11 * 4);
    lemma_fops_range(fadd(fadd(t0, t1), t2), t3);
    lemma_cong_residue(
        fadd(fadd(fadd(t0, t1), t2), t3),
        m00 - 2 * m01 - 2 * m10 + 4 * m11,
    );
}

/// What a state computation reads: the two streams' values and starting positions, the
/// table `χ` of the reversed earlier challenges, the state dimension `2^w`, the block
/// length `2^(j'-1)` and the constant `c` of `p (c + q)`.
pub struct StateInputs {
    pub p: Seq<int>,
    pub q: Seq<int>,
    pub chi: Seq<int>,
    pub p0: int,
    pub q0: int,
    pub dim: nat,
    pub block: nat,
    pub lc: int,
}

/// `Σ_{x < m} χ[x] · v[start + x]`, accumulated in order.
pub open spec fn block_sum(v: Seq<int>, chi: Seq<int>, start: int, m: nat) -> int
    decreases m,
{
    if m == 0 {
        0
    } else {
        fadd(block_sum(v, chi, start, (m - 1) as nat), fmul(chi[m - 1], v[start + m - 1]))
    }
}

/// `X_b[β] = p(r, β, b)`: the block of `p` at `(b, β)` folded against `χ`.
pub open spec fn x_value(si: StateInputs, b: nat, beta: nat) -> int {
    block_sum(si.p, si.chi, si.p0 + (b * si.dim + beta) * si.block, si.block)
}

/// `Y_b[β] = q(r, β, b)`.
pub open spec fn y_value(si: StateInputs, b: nat, beta: nat) -> int {
    block_sum(si.q, si.chi, si.q0 + (b * si.dim + beta) * si.block, si.block)
}

/// `M[β1][β2] = Σ_{b < nb} X_b[β1] (c + Y_b[β2])`, accumulated in order of `b`.
pub open spec fn state_entry(si: StateInputs, b1: nat, b2: nat, nb: nat) -> int
    decreases nb,
{
    if nb == 0 {
        0
    } else {
        fadd(
            state_entry(si, b1, b2, (nb - 1) as nat),
            fmul(x_value(si, (nb - 1) as nat, b1), fadd(si.lc, y_value(si, (nb - 1) as nat, b2))),
        )
    }
}

/// State entries are field residues.
proof fn lemma_state_entry_range(si: StateInputs, b1: nat, b2: nat, nb: nat)
    ensures
        0 <= state_entry(si, b1, b2, nb) < pm(),
{
    lemma_modulus_large();
    if nb > 0 {
        lemma_fops_range(
            state_entry(si, b1, b2, (nb - 1) as nat),
            fmul(x_value(si, (nb - 1) as nat, b1), fadd(si.lc, y_value(si, (nb - 1) as nat, b2))),
        );
    }
}

/// The state table after `nb` values of `b`.
pub open spec fn state_table(si: StateInputs, nb: nat) -> Seq<Seq<int>> {
    Seq::new(si.dim, |b1: int| Seq::new(si.dim, |b2: int| state_entry(si, b1 as nat, b2 as nat, nb)))
}

/// The first `m` challenges in reverse order.
pub open spec fn reversed_prefix(challenges: Seq<Fr>, m: int) -> Seq<Fr> {
    Seq::new(m as nat, |i: int| challenges[m - 1 - i])
}

/// A stream can produce `count` values from `start` on.
pub open spec fn stream_ready<S: FunctionStream>(s: S, start: nat, count: nat) -> bool {
    &&& start + count <= s.spec_values().len()
    &&& forall|pos: nat| start <= pos < start + count ==> #[trigger] s.spec_ok_at(pos)
}

/// Every step of a Lagrange basis stream over `r` can divide.
pub open spec fn lagrange_ready(r: Seq<Fr>) -> bool {
    forall|v: nat| 0 < v < pow2(r.len()) ==> #[trigger] step_ok(views(r), v)
}

/// A square table equals a table of views entry by entry.
proof fn lemma_table_views_eq(t: Seq<Vec<Fr>>, s: Seq<Seq<int>>, d: nat)
    requires
        t.len() == d,
        s.len() == d,
        forall|i: int| 0 <= i < d ==> (#[trigger] t[i]).len() == d,
        forall|i: int| 0 <= i < d ==> (#[trigger] s[i]).len() == d,
        forall|i: int, k: int| 0 <= i < d && 0 <= k < d ==> #[trigger] t[i]@[k]@ == s[i][k],
    ensures
        table_views(t) == s,
{
    assert forall|i: int| 0 <= i < d implies #[trigger] table_views(t)[i] == s[i] by {
        assert(table_views(t)[i] == views(t[i]@));
        assert(t[i].len() == d && s[i].len() == d);
        assert(t[i]@.len() == d);
        assert forall|k: int| 0 <= k < d implies #[trigger] table_views(t)[i][k] == s[i][k] by {
            assert(t[i]@[k]@ == s[i][k]);
            assert(views(t[i]@)[k] == t[i]@[k]@ as int);
        }
        assert(table_views(t)[i] =~= s[i]);
    }
    assert(table_views(t) =~= s);
}

/// Adds `X[β1] (c + Y[β2])` to every entry of the table.
fn add_outer(table: &Vec<Vec<Fr>>, xs: &Vec<Fr>, ys: &Vec<Fr>, lc: Fr) -> (r: Vec<Vec<Fr>>)
    requires
        xs.len() == table.len(),
        ys.len() == table.len(),
        forall|i: int| 0 <= i < table.len() ==> #[trigger] table@[i].len() == table.len(),
    ensures
        r.len() == table.len(),
        forall|i: int| 0 <= i < r.len() ==> #[trigger] r@[i].len() == table.len(),
        forall|i: int, k: int|
            0 <= i < r.len() && 0 <= k < r.len() ==> #[trigger] r@[i]@[k]@ == fadd(
                table@[i]@[k]@ as int,
                fmul(xs@[i]@ as int, fadd(lc@ as int, ys@[k]@ as int)),
            ),
{
    let d = table.len();
    let mut out: Vec<Vec<Fr>> = Vec::new();
    let mut b1: usize = 0;
    while b1 < d
        invariant
            d == table.len(),
            xs.len() == d,
            ys.len() == d,
            forall|i: int| 0 <= i < d ==> #[trigger] table@[i].len() == d,
            b1 <= d,
            out.len() == b1,
            forall|i: int| 0 <= i < b1 ==> #[trigger] out@[i].len() == d,
            forall|i: int, k: int|
                0 <= i < b1 && 0 <= k < d ==> #[trigger] out@[i]@[k]@ == fadd(
                    table@[i]@[k]@ as int,
                    fmul(xs@[i]@ as int, fadd(lc@ as int, ys@[k]@ as int)),
                ),
        decreases d - b1,
    {
        let mut row: Vec<Fr> = Vec::new();
        let mut b2: usize = 0;
        while b2 < d
            invariant
                d == table.len(),
                xs.len() == d,
                ys.len() == d,
                b1 < d,
                table@[b1 as int].len() == d,
                b2 <= d,
                row.len() == b2,
                forall|k: int| 0 <= k < b2 ==> #[trigger] row@[k]@ == fadd(
                    table@[b1 as int]@[k]@ as int,
                    fmul(xs@[b1 as int]@ as int, fadd(lc@ as int, ys@[k]@ as int)),
                ),
            decreases d - b2,
        {
            let v = table[b1][b2].plus(&xs[b1].times(&lc.plus(&ys[b2])));
            row.push(v);
            b2 = b2 + 1;
        }
        out.push(row);
        b1 = b1 + 1;
    }
    out
}

/// Round `j` runs in the time-constrained phase when `j <= l - 1`.
pub open spec fn in_time_phase(l: nat, j: nat) -> bool {
    j + 1 <= l
}

/// `j'`: the round whose state round `j` reads — `2^⌈log2 j⌉` in the time-constrained
/// phase, `l ⌊j / l⌋` in the space-constrained one.
pub open spec fn state_round(l: nat, j: nat) -> nat {
    if in_time_phase(l, j) {
        pow2(ceil_log2(j))
    } else {
        l * (j / l)
    }
}

/// `w(j')`: the window of that state — `min(2^⌈log2 j⌉, n + 1 - j')` in the
/// time-constrained phase, `min(l, n + 1 - j')` in the space-constrained one.
pub open spec fn state_window(n: nat, l: nat, j: nat) -> nat {
    let cap = n + 1 - state_round(l, j);
    let a = if in_time_phase(l, j) {
        pow2(ceil_log2(j)) as int
    } else {
        l as int
    };
    (if a <= cap {
        a
    } else {
        cap
    }) as nat
}

/// Round `j` computes a new state: at a power of two in the time-constrained phase, at a
/// multiple of `l` in the space-constrained one.
pub open spec fn computes_state(l: nat, j: nat) -> bool {
    if in_time_phase(l, j) {
        pow2(ceil_log2(j)) == j
    } else {
        j % l == 0
    }
}

/// The phase parameters admit every round: `l >= 1`, and every round of the
/// time-constrained phase is a power of two.
pub open spec fn phases_ok(n: nat, l: nat) -> bool {
    &&& (n > 0 ==> l >= 1)
    &&& forall|j: nat| 1 <= j <= n && in_time_phase(l, j) ==> #[trigger] pow2(ceil_log2(j)) == j
}

/// Between recomputations the state round and window stay put.
proof fn lemma_state_stable(n: nat, l: nat, j: nat)
    requires
        2 <= j <= n,
        phases_ok(n, l),
        !computes_state(l, j),
    ensures
        state_round(l, j) == state_round(l, (j - 1) as nat),
        state_window(n, l, j) == state_window(n, l, (j - 1) as nat),
        !in_time_phase(l, (j - 1) as nat),
{
    assert(!in_time_phase(l, j)) by {
        if in_time_phase(l, j) {
            assert(pow2(ceil_log2(j)) == j);
        }
    }
    let q = j / l;
    let r = j % l;
    vstd::arithmetic::div_mod::lemma_fundamental_div_mod(j as int, l as int);
    assert(r >= 1);
    assert(j >= l + 1) by (nonlinear_arith)
        requires
            j == l * q + r,
            r >= 1,
            r < l,
            j >= l,
            q >= 0,
    ;
    vstd::arithmetic::div_mod::lemma_fundamental_div_mod_converse(
        (j - 1) as int,
        l as int,
        q as int,
        r - 1,
    );
}

/// A stream with the same values and the same producible positions is as ready.
proof fn lemma_stream_ready_same<S: FunctionStream>(a: S, b: S, start: nat, count: nat)
    requires
        stream_ready(a, start, count),
        a.spec_values() == b.spec_values(),
        forall|p: nat| #[trigger] b.spec_ok_at(p) == a.spec_ok_at(p),
    ensures
        stream_ready(b, start, count),
{
    assert forall|pos: nat| start <= pos < start + count implies #[trigger] b.spec_ok_at(pos) by {
        assert(a.spec_ok_at(pos));
    }
}

/// The claim `Σ_{i < m} p[p0 + i] (c + q[q0 + i])` of the product sumcheck.
pub open spec fn product_claim(p: Seq<int>, q: Seq<int>, p0: int, q0: int, lc: int, m: nat) -> int
    decreases m,
{
    if m == 0 {
        0
    } else {
        fadd(
            product_claim(p, q, p0, q0, lc, (m - 1) as nat),
            fmul(p[p0 + m - 1], fadd(lc, q[q0 + m - 1])),
        )
    }
}

/// With no folding (`χ = [1]`, blocks of one value), `X_b[β]` is the stream value itself.
proof fn lemma_unit_block(v: Seq<int>, chi: Seq<int>, start: int)
    requires
        chi.len() == 1,
        chi[0] == 1,
    ensures
        block_sum(v, chi, start, 1) == v[start] % pm(),
{
    lemma_modulus_large();
    assert(block_sum(v, chi, start, 0) == 0);
    assert(block_sum(v, chi, start, 1) == fadd(0, fmul(chi[0], v[start])));
    lemma_cong_ops(1, 1, v[start], v[start]);
    lemma_fops_range(1, v[start]);
    lemma_cong_ops(0, 0, fmul(1, v[start]), v[start]);
    lemma_fops_range(0, fmul(1, v[start]));
    lemma_cong_residue(fadd(0, fmul(1, v[start])), v[start]);
}

/// The diagonal entries of a width-2 unit state pair up the terms of the claim.
proof fn lemma_unit_state_diagonal(si: StateInputs, nb: nat)
    requires
        si.chi == seq![1int],
        si.block == 1,
        si.dim == 2,
    ensures
        fadd(state_entry(si, 0, 0, nb), state_entry(si, 1, 1, nb)) == product_claim(
            si.p,
            si.q,
            si.p0,
            si.q0,
            si.lc,
            2 * nb,
        ),
    decreases nb,
{
    lemma_modulus_large();
    if nb == 0 {
        lemma_residue(0);
    } else {
        let m = (nb - 1) as nat;
        lemma_unit_state_diagonal(si, m);
        let i0 = si.p0 + 2 * m;
        let j0 = si.q0 + 2 * m;
        lemma_unit_block(si.p, si.chi, i0);
        lemma_unit_block(si.q, si.chi, j0);
        lemma_unit_block(si.p, si.chi, i0 + 1);
        lemma_unit_block(si.q, si.chi, j0 + 1);
        assert(si.p0 + (m * 2 + 0) * 1 == i0);
        assert(si.p0 + (m * 2 + 1) * 1 == i0 + 1);
        assert(si.q0 + (m * 2 + 0) * 1 == j0);
        assert(si.q0 + (m * 2 + 1) * 1 == j0 + 1);
        let a = fmul(si.p[i0] % pm(), fadd(si.lc, si.q[j0] % pm()));
        let b = fmul(si.p[i0 + 1] % pm(), fadd(si.lc, si.q[j0 + 1] % pm()));
        let a2 = fmul(si.p[i0], fadd(si.lc, si.q[j0]));
        let b2 = fmul(si.p[i0 + 1], fadd(si.lc, si.q[j0 + 1]));
        crate::field::lemma_fadd_mod_right(si.lc, si.q[j0]);
        crate::field::lemma_fadd_mod_right(si.lc, si.q[j0 + 1]);
        crate::field::lemma_fmul_mod_left(si.p[i0], fadd(si.lc, si.q[j0]));
        crate::field::lemma_fmul_mod_left(si.p[i0 + 1], fadd(si.lc, si.q[j0 + 1]));
        assert(a == a2);
        assert(b == b2);
        let s0 = state_entry(si, 0, 0, m);
        let s1 = state_entry(si, 1, 1, m);
        assert(product_claim(si.p, si.q, si.p0, si.q0, si.lc, (2 * nb - 1) as nat) == fadd(
            product_claim(si.p, si.q, si.p0, si.q0, si.lc, 2 * m),
            a2,
        ));
        lemma_cong_ops(s0, s0, a, a);
        lemma_cong_ops(s1, s1, b, b);
        lemma_cong_ops(fadd(s0, a), s0 + a, fadd(s1, b), s1 + b);
        lemma_cong_ops(s0, s0, s1, s1);
        lemma_cong_ops(fadd(s0, s1), s0 + s1, a, a);
        lemma_cong_ops(fadd(fadd(s0, s1), a), s0 + s1 + a, b, b);
        lemma_fops_range(fadd(s0, a), fadd(s1, b));
        lemma_fops_range(fadd(fadd(s0, s1), a), b);
        lemma_cong_residue(fadd(fadd(s0, a), fadd(s1, b)), s0 + s1 + a + b);
        lemma_cong_residue(fadd(fadd(fadd(s0, s1), a), b), s0 + s1 + a + b);
    }
}

/// `num_integer::div_floor` on `usize`: floored division, which for unsigned integers
/// is `/`; the divisor must be non-zero.
#[verifier::external_body]
fn div_floor(x: usize, y: usize) -> (r: usize)
    requires
        y > 0,
    ensures
        r == x / y,
{
    num_integer::div_floor(x, y)
}

/// `c` is the quadratic through `(0, f0)`, `(1, f1)`, `(2, f2)` with its linear
/// coefficient left out: `[c0, c2]` with `c0 = f0` and `2 c2 = f0 - 2 f1 + f2`.
pub open spec fn compressed_quadratic(f0: int, f1: int, f2: int, c: Seq<int>) -> bool {
    &&& c.len() == 2
    &&& c[0] == f0
    &&& fmul(c[1], 2) == fadd(fsub(f2, fadd(f1, f1)), f0)
}

/// The quadratic through the values `f0, f1, f2` at `0, 1, 2`, in compressed form
/// (see [`compressed_quadratic`]).
pub fn compress_evals(f0: Fr, f1: Fr, f2: Fr) -> (r: Vec<Fr>)
    ensures
        compressed_quadratic(f0@ as int, f1@ as int, f2@ as int, views(r@)),
{
    let two = Fr::from_u64(2);
    let num = f2.minus(&f1.plus(&f1)).plus(&f0);
    let c2 = num.over(&two);
    let mut r: Vec<Fr> = Vec::new();
    r.push(f0);
    r.push(c2);
    proof {
        assert(views(r@)[0] == f0@);
        assert(views(r@)[1] == c2@);
    }
    r
}

/// Appending a round keeps each round's compressed polynomial beside its values, and
/// keeps the compressed polynomials that came before.
proof fn lemma_compressed_step(
    ev: Seq<(Fr, Fr, Fr)>,
    e: (Fr, Fr, Fr),
    cp: Seq<Seq<int>>,
    c: Seq<int>,
    k0: int,
    kc: int,
    m: int,
    cp0: Seq<Seq<int>>,
)
    requires
        0 <= k0,
        0 <= m,
        cp0.len() == kc,
        ev.len() == k0 + m,
        cp.len() == kc + m,
        cp.take(kc) == cp0,
        compressed_quadratic(e.0@ as int, e.1@ as int, e.2@ as int, c),
        forall|t: int|
            0 <= t < m ==> {
                let x = ev[k0 + t];
                compressed_quadratic(x.0@ as int, x.1@ as int, x.2@ as int, #[trigger] cp[kc + t])
            },
    ensures
        cp.push(c).take(kc) == cp0,
        forall|t: int|
            0 <= t < m + 1 ==> {
                let x = ev.push(e)[k0 + t];
                compressed_quadratic(
                    x.0@ as int,
                    x.1@ as int,
                    x.2@ as int,
                    #[trigger] cp.push(c)[kc + t],
                )
            },
{
    assert(cp.push(c).take(kc) =~= cp.take(kc));
    assert forall|t: int| 0 <= t < m + 1 implies {
        let x = ev.push(e)[k0 + t];
        compressed_quadratic(x.0@ as int, x.1@ as int, x.2@ as int, #[trigger] cp.push(c)[kc + t])
    } by {
        if t < m {
            assert(cp.push(c)[kc + t] == cp[kc + t]);
            assert(ev.push(e)[k0 + t] == ev[k0 + t]);
        }
    }
}

/// The prover of the product sumcheck over two streams.
///
/// Rounds `1 ..= l - 1` run in the time-constrained phase, the remaining ones in the
/// space-constrained phase, with `l = floor(n / 2k)`.
pub struct ProductSumcheckProver<S1: FunctionStream, S2: FunctionStream> {
    first_stream: S1,
    second_stream: S2,
    num_rounds: usize,
    l: usize,
    /// The challenges of the rounds so far.
    pub challenges: Vec<Fr>,
    /// The round polynomials in compressed form (see [`compressed_quadratic`]).
    pub compressed_polys: Vec<Vec<Fr>>,
    /// The round polynomials' values `(f(0), f(1), f(2))`.
    pub eval_points: Vec<(Fr, Fr, Fr)>,
}

impl<S1: FunctionStream, S2: FunctionStream> ProductSumcheckProver<S1, S2> {
    /// The first stream (`p`).
    pub closed spec fn spec_first(&self) -> S1 {
        self.first_stream
    }

    /// The second stream (`q`).
    pub closed spec fn spec_second(&self) -> S2 {
        self.second_stream
    }

    /// The number of rounds `n`.
    pub closed spec fn spec_num_rounds(&self) -> nat {
        self.num_rounds as nat
    }

    /// The challenges so far.
    pub closed spec fn spec_challenges(&self) -> Seq<Fr> {
        self.challenges@
    }

    /// The round values so far.
    pub closed spec fn spec_eval_points(&self) -> Seq<(Fr, Fr, Fr)> {
        self.eval_points@
    }

    /// The compressed round polynomials so far.
    pub closed spec fn spec_compressed_polys(&self) -> Seq<Seq<int>> {
        table_views(self.compressed_polys@)
    }

    /// The phase boundary `l`.
    pub closed spec fn spec_l(&self) -> nat {
        self.l as nat
    }

    /// A prover for `n` variables with space/time trade-off parameter `k`:
    /// `l = floor(n / 2k)`, no challenge and no round yet.
    pub fn new(k: usize, n: usize, first_stream: S1, second_stream: S2) -> (r: Self)
        requires
            k > 0,
            2 * k <= usize::MAX,
        ensures
            r.spec_first() == first_stream,
            r.spec_second() == second_stream,
            r.spec_num_rounds() == n,
            r.spec_l() == (n as int) / (2 * k as int),
            r.spec_challenges() == Seq::<Fr>::empty(),
            r.spec_eval_points() == Seq::<(Fr, Fr, Fr)>::empty(),
            r.spec_compressed_polys() == Seq::<Seq<int>>::empty(),
    {
        let l = div_floor(n, 2 * k);
        ProductSumcheckProver {
            first_stream,
            second_stream,
            num_rounds: n,
            l,
            challenges: Vec::new(),
            compressed_polys: Vec::new(),
            eval_points: Vec::new(),
        }
    }

    /// The state inputs for a state computed at round `j_prime` with window `w_j_prime`,
    /// streams starting at `p0` and `q0`.
    pub open spec fn spec_state_inputs(
        p: Seq<int>,
        q: Seq<int>,
        p0: nat,
        q0: nat,
        challenges: Seq<Fr>,
        j_prime: nat,
        w_j_prime: nat,
        lc: int,
    ) -> StateInputs {
        StateInputs {
            p,
            q,
            chi: eq_table(views(reversed_prefix(challenges, j_prime - 1))),
            p0: p0 as int,
            q0: q0 as int,
            dim: pow2(w_j_prime),
            block: pow2((j_prime - 1) as nat),
            lc,
        }
    }

    /// The state `M_{j'}[β1][β2] = Σ_b X_b[β1] (c + Y_b[β2])` of round `j' = j` (see
    /// [`state_entry`]). Each stream is read `2^n` times from its current position and is
    /// then reset.
    fn compute_state(&mut self, j: usize, j_prime: usize, w_j_prime: usize, lc: Fr) -> (r: Vec<
        Vec<Fr>,
    >)
        requires
            j == j_prime,
            1 <= j_prime,
            j_prime - 1 <= old(self).challenges.len(),
            j_prime - 1 + w_j_prime <= old(self).num_rounds,
            old(self).num_rounds < usize::BITS,
            stream_ready(
                old(self).first_stream,
                old(self).first_stream.spec_position(),
                pow2(old(self).num_rounds as nat),
            ),
            stream_ready(
                old(self).second_stream,
                old(self).second_stream.spec_position(),
                pow2(old(self).num_rounds as nat),
            ),
            lagrange_ready(reversed_prefix(old(self).challenges@, j_prime - 1)),
        ensures
            table_views(r@) == state_table(
                Self::spec_state_inputs(
                    old(self).first_stream.spec_values(),
                    old(self).second_stream.spec_values(),
                    old(self).first_stream.spec_position(),
                    old(self).second_stream.spec_position(),
                    old(self).challenges@,
                    j_prime as nat,
                    w_j_prime as nat,
                    lc@ as int,
                ),
                pow2((old(self).num_rounds + 1 - j_prime - w_j_prime) as nat),
            ),
            r.len() == pow2(w_j_prime as nat),
            forall|i: int| 0 <= i < r.len() ==> #[trigger] r@[i].len() == pow2(w_j_prime as nat),
            final(self).first_stream.spec_values() == old(self).first_stream.spec_values(),
            final(self).second_stream.spec_values() == old(self).second_stream.spec_values(),
            final(self).first_stream.spec_position() == 0,
            final(self).second_stream.spec_position() == 0,
            forall|p: nat| #[trigger] final(self).first_stream.spec_ok_at(p)
                == old(self).first_stream.spec_ok_at(p),
            forall|p: nat| #[trigger] final(self).second_stream.spec_ok_at(p)
                == old(self).second_stream.spec_ok_at(p),
            final(self).challenges == old(self).challenges,
            final(self).eval_points == old(self).eval_points,
            final(self).compressed_polys == old(self).compressed_polys,
            final(self).num_rounds == old(self).num_rounds,
            final(self).l == old(self).l,
    {
        let ghost si = Self::spec_state_inputs(
            self.first_stream.spec_values(),
            self.second_stream.spec_values(),
            self.first_stream.spec_position(),
            self.second_stream.spec_position(),
            self.challenges@,
            j_prime as nat,
            w_j_prime as nat,
            lc@ as int,
        );
        let ghost first0 = self.first_stream;
        let ghost second0 = self.second_stream;
        let m = j_prime - 1;
        let mut rev: Vec<Fr> = Vec::new();
        let mut i: usize = 0;
        while i < m
            invariant
                m <= self.challenges.len(),
                i <= m,
                rev@ == reversed_prefix(self.challenges@, m as int).take(i as int),
            decreases m - i,
        {
            rev.push(self.challenges[m - 1 - i]);
            i = i + 1;
            proof {
                assert(rev@ =~= reversed_prefix(self.challenges@, m as int).take(i as int));
            }
        }
        proof {
            assert(rev@ =~= reversed_prefix(self.challenges@, m as int));
            lemma_usize_bits();
            let n = self.num_rounds as nat;
            let hb = (n + 1 - j_prime - w_j_prime) as nat;
            lemma_pow2_adds(hb, w_j_prime as nat);
            lemma_pow2_adds((hb + w_j_prime) as nat, m as nat);
            assert(hb + w_j_prime + m == n);
            vstd::bits::lemma_usize_pow2_no_overflow(n);
            lemma_pow2_pos(hb);
            lemma_pow2_pos(w_j_prime as nat);
            lemma_pow2_pos(m as nat);
        }
        let dim = pow2_usize(w_j_prime);
        let b_space_size = pow2_usize(self.num_rounds + 1 - j_prime - w_j_prime);
        let x_space_size = pow2_usize(m);
        let ghost total = pow2(self.num_rounds as nat);
        proof {
            assert(b_space_size * dim * x_space_size == total) by (nonlinear_arith)
                requires
                    total == b_space_size * dim * x_space_size,
            ;
        }
        let mut table: Vec<Vec<Fr>> = Vec::new();
        let mut t: usize = 0;
        while t < dim
            invariant
                t <= dim,
                table.len() == t,
                forall|a: int| 0 <= a < t ==> #[trigger] table@[a].len() == dim,
                forall|a: int, c: int|
                    0 <= a < t && 0 <= c < dim ==> #[trigger] table@[a]@[c]@ == 0,
            decreases dim - t,
        {
            let mut row: Vec<Fr> = Vec::new();
            let mut u: usize = 0;
            while u < dim
                invariant
                    u <= dim,
                    row.len() == u,
                    forall|c: int| 0 <= c < u ==> #[trigger] row@[c]@ == 0,
                decreases dim - u,
            {
                row.push(Fr::zero());
                u = u + 1;
            }
            table.push(row);
            t = t + 1;
        }
        let mut lagrange_basis = LagrangeBasisStream::new(rev.as_slice());
        proof {
            lemma_lagrange_stream_ok(lagrange_basis);
            lemma_lagrange_stream_is_eq_table(lagrange_basis);
            assert forall|a: int, c: int| 0 <= a < dim && 0 <= c < dim implies #[trigger] table@[a]@[c]@ == state_table(si, 0)[a][c] by {
                assert(table@[a]@[c]@ == 0);
            }
            lemma_table_views_eq(table@, state_table(si, 0), dim as nat);
        }
        let mut b: usize = 0;
        proof {
            assert(b * dim * x_space_size == 0) by (nonlinear_arith)
                requires
                    b == 0,
            ;
        }
        while b < b_space_size
            invariant
                b <= b_space_size,
                si == Self::spec_state_inputs(
                    first0.spec_values(),
                    second0.spec_values(),
                    first0.spec_position(),
                    second0.spec_position(),
                    self.challenges@,
                    j_prime as nat,
                    w_j_prime as nat,
                    lc@ as int,
                ),
                dim == si.dim,
                x_space_size == si.block,
                b_space_size * dim * x_space_size == pow2(self.num_rounds as nat),
                stream_ready(first0, first0.spec_position(), pow2(self.num_rounds as nat)),
                stream_ready(second0, second0.spec_position(), pow2(self.num_rounds as nat)),
                self.first_stream.spec_values() == first0.spec_values(),
                self.second_stream.spec_values() == second0.spec_values(),
                forall|p: nat| #[trigger] self.first_stream.spec_ok_at(p) == first0.spec_ok_at(p),
                forall|p: nat| #[trigger] self.second_stream.spec_ok_at(p) == second0.spec_ok_at(p),
                self.first_stream.spec_position() == first0.spec_position() + b * dim * x_space_size,
                self.second_stream.spec_position() == second0.spec_position() + b * dim
                    * x_space_size,
                lagrange_basis.spec_values() == si.chi,
                lagrange_basis.spec_position() == 0,
                forall|p: nat| #[trigger] lagrange_basis.spec_ok_at(p),
                si.chi.len() == x_space_size,
                table.len() == dim,
                forall|a: int| 0 <= a < dim ==> #[trigger] table@[a].len() == dim,
                table_views(table@) == state_table(si, b as nat),
                self.challenges == old(self).challenges,
                self.eval_points == old(self).eval_points,
                self.compressed_polys == old(self).compressed_polys,
                self.num_rounds == old(self).num_rounds,
                self.l == old(self).l,
            decreases b_space_size - b,
        {
            let mut x_values: Vec<Fr> = Vec::new();
            let mut y_values: Vec<Fr> = Vec::new();
            let mut beta: usize = 0;
            while beta < dim
                invariant
                    b < b_space_size,
                    beta <= dim,
                    dim == si.dim,
                    x_space_size == si.block,
                    b_space_size * dim * x_space_size == pow2(self.num_rounds as nat),
                    stream_ready(first0, first0.spec_position(), pow2(self.num_rounds as nat)),
                    stream_ready(second0, second0.spec_position(), pow2(self.num_rounds as nat)),
                    si.p == first0.spec_values(),
                    si.q == second0.spec_values(),
                    si.p0 == first0.spec_position(),
                    si.q0 == second0.spec_position(),
                    self.first_stream.spec_values() == first0.spec_values(),
                    self.second_stream.spec_values() == second0.spec_values(),
                    forall|p: nat| #[trigger] self.first_stream.spec_ok_at(p) == first0.spec_ok_at(p),
                    forall|p: nat| #[trigger] self.second_stream.spec_ok_at(p) == second0.spec_ok_at(p),
                    self.first_stream.spec_position() == first0.spec_position() + (b * dim + beta)
                        * x_space_size,
                    self.second_stream.spec_position() == second0.spec_position() + (b * dim
                        + beta) * x_space_size,
                    lagrange_basis.spec_values() == si.chi,
                    lagrange_basis.spec_position() == 0,
                    forall|p: nat| #[trigger] lagrange_basis.spec_ok_at(p),
                    si.chi.len() == x_space_size,
                    x_values.len() == beta,
                    y_values.len() == beta,
                    forall|a: int| 0 <= a < beta ==> #[trigger] x_values@[a]@ == x_value(si, b as nat, a as nat),
                    forall|a: int| 0 <= a < beta ==> #[trigger] y_values@[a]@ == y_value(si, b as nat, a as nat),
                    self.challenges == old(self).challenges,
                    self.eval_points == old(self).eval_points,
                    self.compressed_polys == old(self).compressed_polys,
                    self.num_rounds == old(self).num_rounds,
                    self.l == old(self).l,
                decreases dim - beta,
            {
                let mut x_sum = Fr::zero();
                let mut y_sum = Fr::zero();
                let ghost start = (b * dim + beta) * x_space_size;
                proof {
                    assert((b * dim + beta) * x_space_size + x_space_size <= b_space_size * dim
                        * x_space_size) by (nonlinear_arith)
                        requires
                            b < b_space_size,
                            beta < dim,
                    ;
                }
                let mut x: usize = 0;
                while x < x_space_size
                    invariant
                        b < b_space_size,
                        beta < dim,
                        x <= x_space_size,
                        start == (b * dim + beta) * x_space_size,
                        start + x_space_size <= pow2(self.num_rounds as nat),
                        stream_ready(first0, first0.spec_position(), pow2(self.num_rounds as nat)),
                        stream_ready(second0, second0.spec_position(), pow2(self.num_rounds as nat)),
                        self.first_stream.spec_values() == first0.spec_values(),
                        self.second_stream.spec_values() == second0.spec_values(),
                        forall|p: nat| #[trigger] self.first_stream.spec_ok_at(p) == first0.spec_ok_at(p),
                        forall|p: nat| #[trigger] self.second_stream.spec_ok_at(p) == second0.spec_ok_at(p),
                        self.first_stream.spec_position() == first0.spec_position() + start + x,
                        self.second_stream.spec_position() == second0.spec_position() + start + x,
                        lagrange_basis.spec_values() == si.chi,
                        lagrange_basis.spec_position() == x,
                        forall|p: nat| #[trigger] lagrange_basis.spec_ok_at(p),
                        si.chi.len() == x_space_size,
                        si.p == first0.spec_values(),
                        si.q == second0.spec_values(),
                        si.p0 == first0.spec_position(),
                        si.q0 == second0.spec_position(),
                        x_sum@ == block_sum(si.p, si.chi, si.p0 + start, x as nat),
                        y_sum@ == block_sum(si.q, si.chi, si.q0 + start, x as nat),
                        self.challenges == old(self).challenges,
                        self.eval_points == old(self).eval_points,
                        self.compressed_polys == old(self).compressed_polys,
                        self.num_rounds == old(self).num_rounds,
                        self.l == old(self).l,
                    decreases x_space_size - x,
                {
                    proof {
                        let pos1 = (first0.spec_position() + start + x) as nat;
                        assert(first0.spec_ok_at(pos1));
                        let pos2 = (second0.spec_position() + start + x) as nat;
                        assert(second0.spec_ok_at(pos2));
                    }
                    let p_value = self.first_stream.next().unwrap();
                    let lagrange_base = lagrange_basis.next().unwrap();
                    x_sum = x_sum.plus(&lagrange_base.times(&p_value));
                    let q_value = self.second_stream.next().unwrap();
                    y_sum = y_sum.plus(&lagrange_base.times(&q_value));
                    x = x + 1;
                }
                lagrange_basis.reset();
                x_values.push(x_sum);
                y_values.push(y_sum);
                proof {
                    assert((b * dim + beta) * x_space_size + x_space_size == (b * dim + (beta + 1))
                        * x_space_size) by (nonlinear_arith);
                }
                beta = beta + 1;
            }
            let ghost old_vec = table@;
            let ghost old_table = table_views(table@);
            table = add_outer(&table, &x_values, &y_values, lc);
            proof {
                assert(b * dim * x_space_size + dim * x_space_size == (b + 1) * dim * x_space_size)
                    by (nonlinear_arith);
                assert((b * dim + dim) * x_space_size == (b + 1) * dim * x_space_size) by (
                nonlinear_arith);
                assert forall|a: int, c: int| 0 <= a < dim && 0 <= c < dim implies #[trigger] table@[a]@[c]@ == state_table(si, (b + 1) as nat)[a][c] by {
                    assert(old_table[a][c] == state_table(si, b as nat)[a][c]);
                    assert(old_table[a] == views(old_vec[a]@));
                    assert(views(old_vec[a]@)[c] == old_vec[a]@[c]@ as int);
                    assert(x_values@[a]@ == x_value(si, b as nat, a as nat));
                    assert(y_values@[c]@ == y_value(si, b as nat, c as nat));
                }
                lemma_table_views_eq(table@, state_table(si, (b + 1) as nat), dim as nat);
            }
            b = b + 1;
        }
        self.first_stream.reset();
        self.second_stream.reset();
        table
    }

    /// The state read by round `j` of [`Self::prove`] started from `self`, with
    /// challenges `self.challenges ++ ext` and constant `lc`: the state of round `j'`,
    /// whose streams start where they stand for `j' == 1` and at 0 afterwards.
    pub open spec fn spec_prove_state(&self, ext: Seq<Fr>, lc: int, j: nat) -> Seq<Seq<int>> {
        let n = self.spec_num_rounds();
        let l = self.spec_l();
        let jp = state_round(l, j);
        let w = state_window(n, l, j);
        let p0 = if jp == 1 {
            self.spec_first().spec_position()
        } else {
            0
        };
        let q0 = if jp == 1 {
            self.spec_second().spec_position()
        } else {
            0
        };
        state_table(
            Self::spec_state_inputs(
                self.spec_first().spec_values(),
                self.spec_second().spec_values(),
                p0,
                q0,
                self.spec_challenges() + ext,
                jp,
                w,
                lc,
            ),
            pow2((n + 1 - jp - w) as nat),
        )
    }

    /// The first round's values at 0 and 1 add up to the claim
    /// `Σ_{i < 2^n} p(i) (c + q(i))` over the streams from where they stand.
    pub proof fn lemma_first_round_is_claim(&self, ext: Seq<Fr>, lc: int)
        requires
            self.spec_num_rounds() >= 1,
            phases_ok(self.spec_num_rounds(), self.spec_l()),
        ensures
            ({
                let ri = self.spec_prove_round(ext, lc, 1);
                fadd(round_value(ri, 0), round_value(ri, 1)) == product_claim(
                    self.spec_first().spec_values(),
                    self.spec_second().spec_values(),
                    self.spec_first().spec_position() as int,
                    self.spec_second().spec_position() as int,
                    lc,
                    pow2(self.spec_num_rounds()),
                )
            }),
    {
        let n = self.spec_num_rounds();
        let l = self.spec_l();
        vstd::arithmetic::power2::lemma2_to64();
        assert(ceil_log2(1) == 0);
        assert(pow2(0) == 1);
        if !in_time_phase(l, 1) {
            assert(l == 1);
            assert(1nat / 1nat == 1);
            assert(l * (1nat / l) == 1) by (nonlinear_arith)
                requires
                    l == 1,
            ;
        }
        assert(state_round(l, 1) == 1);
        assert(state_window(n, l, 1) == 1);
        let ch = self.spec_challenges() + ext;
        let si = Self::spec_state_inputs(
            self.spec_first().spec_values(),
            self.spec_second().spec_values(),
            self.spec_first().spec_position(),
            self.spec_second().spec_position(),
            ch,
            1,
            1,
            lc,
        );
        assert(reversed_prefix(ch, 0) =~= Seq::<Fr>::empty());
        assert(views(Seq::<Fr>::empty()) =~= Seq::<int>::empty());
        assert(si.chi =~= seq![1int]);
        let nb = pow2((n - 1) as nat);
        assert((n + 1 - 1 - 1) as nat == (n - 1) as nat);
        let table = state_table(si, nb);
        assert(self.spec_prove_state(ext, lc, 1) == table);
        let ri = self.spec_prove_round(ext, lc, 1);
        assert(ch.subrange(0, 0) =~= Seq::<Fr>::empty());
        assert(ri.chi =~= seq![1int]);
        assert(ri.low == 0);
        assert(ri.rest == 1);
        assert(ri.table == table);
        lemma_modulus_large();
        lemma_residue(1);
        assert(fmul(1, 1) == 1);
        assert(round_index(ri, 0, 0, 0) == 0);
        assert(round_index(ri, 0, 1, 0) == 1);
        let m00 = state_entry(si, 0, 0, nb);
        let m11 = state_entry(si, 1, 1, nb);
        assert(table[0][0] == m00);
        assert(table[1][1] == m11);
        reveal_with_fuel(round_acc, 4);
        assert(round_acc(ri, 0, 0, 0, 0) == 0);
        assert(round_term(ri, 0, 0, 0, 0) == fmul(1, m00));
        assert(round_term(ri, 1, 0, 0, 0) == fmul(1, m11));
        assert(round_value(ri, 0) == fadd(0, fmul(1, m00)));
        assert(round_value(ri, 1) == fadd(0, fmul(1, m11)));
        lemma_cong_ops(1, 1, m00, m00);
        lemma_cong_ops(0, 0, fmul(1, m00), m00);
        lemma_cong_ops(1, 1, m11, m11);
        lemma_cong_ops(0, 0, fmul(1, m11), m11);
        lemma_state_entry_range(si, 0, 0, nb);
        lemma_state_entry_range(si, 1, 1, nb);
        lemma_fops_range(0, fmul(1, m00));
        lemma_fops_range(0, fmul(1, m11));
        lemma_cong_residue(fadd(0, fmul(1, m00)), m00);
        lemma_cong_residue(fadd(0, fmul(1, m11)), m11);
        lemma_cong_residue(m00, m00);
        lemma_cong_residue(m11, m11);
        lemma_unit_state_diagonal(si, nb);
        vstd::arithmetic::power2::lemma_pow2_unfold(n);
    }

    /// The round inputs of round `j` of [`Self::prove`].
    pub open spec fn spec_prove_round(&self, ext: Seq<Fr>, lc: int, j: nat) -> RoundInputs {
        let l = self.spec_l();
        Self::spec_round_inputs(
            self.spec_challenges() + ext,
            j,
            state_round(l, j),
            state_window(self.spec_num_rounds(), l, j),
            self.spec_prove_state(ext, lc, j),
        )
    }

    /// What [`Self::prove`] needs of the prover and its inputs.
    pub open spec fn prove_ok(&self, external_randomness: Seq<Fr>) -> bool {
        let n = self.spec_num_rounds();
        let l = self.spec_l();
        &&& n < usize::BITS
        &&& phases_ok(n, l)
        &&& external_randomness.len() >= n
        &&& n >= 1 ==> stream_ready(self.spec_first(), self.spec_first().spec_position(), pow2(n))
        &&& n >= 1 ==> stream_ready(self.spec_second(), self.spec_second().spec_position(), pow2(n))
        &&& n >= 2 ==> stream_ready(self.spec_first(), 0, pow2(n))
        &&& n >= 2 ==> stream_ready(self.spec_second(), 0, pow2(n))
        &&& forall|j: nat|
            1 <= j <= n && computes_state(l, j) ==> #[trigger] lagrange_ready(
                reversed_prefix(self.spec_challenges() + external_randomness, j - 1),
            )
    }

    /// Runs the `n` rounds: round `j` recomputes the state when due, appends the round
    /// polynomial's values `(f(0), f(1), f(2))` to `eval_points` and takes
    /// `external_randomness[j - 1]` as its challenge.
    #[verifier::rlimit(40)]
    pub fn prove(&mut self, external_randomness: Vec<Fr>, lc_external_randomness: Fr)
        requires
            old(self).prove_ok(external_randomness@),
        ensures
            ({
                let n = old(self).spec_num_rounds();
                let k0 = old(self).spec_eval_points().len();
                &&& final(self).spec_challenges() == old(self).spec_challenges()
                    + external_randomness@.take(n as int)
                &&& final(self).spec_eval_points().len() == k0 + n
                &&& final(self).spec_eval_points().take(k0 as int) == old(self).spec_eval_points()
                &&& forall|t: int|
                    0 <= t < n ==> {
                        let e = #[trigger] final(self).spec_eval_points()[k0 + t];
                        let ri = old(self).spec_prove_round(
                            external_randomness@,
                            lc_external_randomness@ as int,
                            (t + 1) as nat,
                        );
                        &&& e.0@ == round_value(ri, 0)
                        &&& e.1@ == round_value(ri, 1)
                        &&& e.2@ == round_value(ri, 2)
                    }
                &&& final(self).spec_compressed_polys().len() == old(self).spec_compressed_polys().len() + n
                &&& final(self).spec_compressed_polys().take(old(self).spec_compressed_polys().len() as int)
                    == old(self).spec_compressed_polys()
                &&& forall|t: int|
                    0 <= t < n ==> {
                        let e = final(self).spec_eval_points()[k0 + t];
                        compressed_quadratic(
                            e.0@ as int,
                            e.1@ as int,
                            e.2@ as int,
                            #[trigger] final(self).spec_compressed_polys()[old(self).spec_compressed_polys().len() + t],
                        )
                    }
                &&& final(self).spec_num_rounds() == n
                &&& final(self).spec_l() == old(self).spec_l()
                &&& final(self).spec_first().spec_values() == old(self).spec_first().spec_values()
                &&& final(self).spec_second().spec_values() == old(
                    self,
                ).spec_second().spec_values()
                &&& n >= 1 ==> final(self).spec_first().spec_position() == 0
                &&& n >= 1 ==> final(self).spec_second().spec_position() == 0
            }),
    {
        let ghost s0 = *self;
        let ghost ext = external_randomness@;
        let ghost lc = lc_external_randomness@ as int;
        let ghost full = s0.challenges@ + ext;
        let ghost k0 = s0.eval_points@.len();
        let ghost kc = s0.compressed_polys@.len();
        let n = self.num_rounds;
        let mut new_state: Vec<Vec<Fr>> = Vec::new();
        let mut j: usize = 1;
        while j <= n
            invariant
                1 <= j <= n + 1,
                n == s0.num_rounds,
                s0.prove_ok(ext),
                ext == external_randomness@,
                full == s0.challenges@ + ext,
                lc == lc_external_randomness@ as int,
                self.num_rounds == n,
                self.l == s0.l,
                self.challenges@ == s0.challenges@ + ext.take(j - 1),
                self.eval_points@.len() == k0 + j - 1,
                self.eval_points@.take(k0 as int) == s0.eval_points@,
                self.compressed_polys@.len() == kc + j - 1,
                table_views(self.compressed_polys@).take(kc as int) == table_views(s0.compressed_polys@),
                forall|t: int|
                    0 <= t < j - 1 ==> {
                        let e = self.eval_points@[k0 + t];
                        compressed_quadratic(
                            e.0@ as int,
                            e.1@ as int,
                            e.2@ as int,
                            #[trigger] table_views(self.compressed_polys@)[kc + t],
                        )
                    },
                forall|t: int|
                    0 <= t < j - 1 ==> {
                        let e = #[trigger] self.eval_points@[k0 + t];
                        let ri = s0.spec_prove_round(ext, lc, (t + 1) as nat);
                        &&& e.0@ == round_value(ri, 0)
                        &&& e.1@ == round_value(ri, 1)
                        &&& e.2@ == round_value(ri, 2)
                    },
                self.first_stream.spec_values() == s0.first_stream.spec_values(),
                self.second_stream.spec_values() == s0.second_stream.spec_values(),
                forall|p: nat| #[trigger] self.first_stream.spec_ok_at(p)
                    == s0.first_stream.spec_ok_at(p),
                forall|p: nat| #[trigger] self.second_stream.spec_ok_at(p)
                    == s0.second_stream.spec_ok_at(p),
                j == 1 ==> self.first_stream.spec_position() == s0.first_stream.spec_position(),
                j == 1 ==> self.second_stream.spec_position() == s0.second_stream.spec_position(),
                j >= 2 ==> self.first_stream.spec_position() == 0,
                j >= 2 ==> self.second_stream.spec_position() == 0,
                j >= 2 ==> table_views(new_state@) == s0.spec_prove_state(ext, lc, (j - 1) as nat),
                j >= 2 ==> new_state.len() == pow2(state_window(n as nat, s0.l as nat, (j - 1) as nat)),
                j >= 2 ==> forall|i: int|
                    0 <= i < new_state.len() ==> #[trigger] new_state@[i].len() == pow2(
                        state_window(n as nat, s0.l as nat, (j - 1) as nat),
                    ),
            decreases n + 1 - j,
        {
            let ghost l = s0.l as nat;
            let ghost jp_spec = state_round(l, j as nat);
            let ghost w_spec = state_window(n as nat, l, j as nat);
            proof {
                lemma_usize_bits();
                vstd::arithmetic::power2::lemma2_to64();
            }
            let s = log_2(j);
            let p: bool;
            let j_prime: usize;
            let w_j_prime: usize;
            if j <= self.l - 1 {
                proof {
                    assert(pow2(ceil_log2(j as nat)) == j);
                    if s == usize::BITS {
                        assert(false);
                    }
                }
                let pw = pow2_usize(s);
                p = pw == j;
                j_prime = pw;
                let cap = n + 1 - j_prime;
                w_j_prime = if pw <= cap {
                    pw
                } else {
                    cap
                };
            } else {
                p = j % self.l == 0;
                let q = div_floor(j, self.l);
                proof {
                    vstd::arithmetic::div_mod::lemma_fundamental_div_mod(j as int, self.l as int);
                    assert(self.l * q <= j) by (nonlinear_arith)
                        requires
                            j == self.l * q + j % self.l,
                            j % self.l >= 0,
                    ;
                    assert(self.l * q >= 1) by (nonlinear_arith)
                        requires
                            j == self.l * q + j % self.l,
                            j % self.l < self.l,
                            j >= self.l,
                            self.l >= 1,
                            q >= 0,
                    ;
                }
                j_prime = self.l * q;
                let cap = n - j_prime + 1;
                w_j_prime = if self.l <= cap {
                    self.l
                } else {
                    cap
                };
            }
            proof {
                assert(j_prime == jp_spec);
                assert(w_j_prime == w_spec);
                assert(p == computes_state(l, j as nat));
                assert(w_j_prime + j_prime >= j + 1) by {
                    if !in_time_phase(l, j as nat) {
                        vstd::arithmetic::div_mod::lemma_fundamental_div_mod(j as int, l as int);
                    }
                }
                assert(self.challenges@.len() == s0.challenges@.len() + j - 1);
            }
            if p {
                proof {
                    if !in_time_phase(l, j as nat) {
                        vstd::arithmetic::div_mod::lemma_fundamental_div_mod(j as int, l as int);
                    }
                    assert(j_prime == j);
                    assert(reversed_prefix(self.challenges@, j_prime - 1) =~= reversed_prefix(
                        full,
                        j_prime - 1,
                    ));
                    assert(lagrange_ready(reversed_prefix(full, j - 1)));
                    if j == 1 {
                        lemma_stream_ready_same(
                            s0.first_stream,
                            self.first_stream,
                            s0.first_stream.spec_position(),
                            pow2(n as nat),
                        );
                        lemma_stream_ready_same(
                            s0.second_stream,
                            self.second_stream,
                            s0.second_stream.spec_position(),
                            pow2(n as nat),
                        );
                    } else {
                        lemma_stream_ready_same(s0.first_stream, self.first_stream, 0, pow2(n as nat));
                        lemma_stream_ready_same(s0.second_stream, self.second_stream, 0, pow2(n as nat));
                    }
                }
                new_state = self.compute_state(j, j_prime, w_j_prime, lc_external_randomness);
                proof {
                    if j >= 2 {
                        if jp_spec == 1 {
                            assert(false);
                        }
                    }
                    assert(table_views(new_state@) == s0.spec_prove_state(ext, lc, j as nat));
                }
            } else {
                proof {
                    lemma_state_stable(n as nat, l, j as nat);
                }
            }
            let (f_0, f_1, f_z) = self.compute_round_polynomials(
                j,
                j_prime,
                w_j_prime,
                &new_state,
            );
            proof {
                assert(self.challenges@.subrange(j_prime - 1, j - 1) =~= full.subrange(
                    j_prime - 1,
                    j - 1,
                ));
            }
            let ghost before = self.eval_points@;
            let ghost before_c = table_views(self.compressed_polys@);
            let compressed = compress_evals(f_0, f_1, f_z);
            self.compressed_polys.push(compressed);
            proof {
                assert(table_views(self.compressed_polys@) =~= before_c.push(views(compressed@)));
            }
            self.eval_points.push((f_0, f_1, f_z));
            let r_j = external_randomness[j - 1];
            self.challenges.push(r_j);
            proof {
                assert(self.challenges@ =~= s0.challenges@ + ext.take(j as int));
                assert(self.eval_points@.take(k0 as int) =~= s0.eval_points@);
                lemma_compressed_step(
                    before,
                    (f_0, f_1, f_z),
                    before_c,
                    views(compressed@),
                    k0 as int,
                    kc as int,
                    j - 1,
                    table_views(s0.compressed_polys@),
                );
            }
            j = j + 1;
        }
        proof {
            assert(ext.take(n as int) =~= ext.take(j - 1));
        }
    }

    /// The round inputs of round `j` for the state computed at round `j_prime` with
    /// window `w_j_prime`.
    pub open spec fn spec_round_inputs(
        challenges: Seq<Fr>,
        j: nat,
        j_prime: nat,
        w_j_prime: nat,
        table: Seq<Seq<int>>,
    ) -> RoundInputs {
        RoundInputs {
            chi: eq_table(views(challenges.subrange(j_prime - 1, j - 1))),
            table,
            low: (j - j_prime) as nat,
            rest: pow2((w_j_prime + j_prime - j - 1) as nat),
        }
    }

    /// The round polynomial's values at 0, 1 and 2 (see [`round_value`]) from the state
    /// table `m` of round `j_prime`.
    fn compute_round_polynomials(
        &self,
        j: usize,
        j_prime: usize,
        w_j_prime: usize,
        m: &Vec<Vec<Fr>>,
    ) -> (r: (Fr, Fr, Fr))
        requires
            1 <= j_prime <= j,
            j - 1 <= self.challenges.len(),
            w_j_prime + j_prime >= j + 1,
            w_j_prime < usize::BITS,
            m.len() >= pow2(w_j_prime as nat),
            forall|i: int| 0 <= i < pow2(w_j_prime as nat) ==> #[trigger] m@[i].len() >= pow2(
                w_j_prime as nat,
            ),
        ensures
            ({
                let ri = Self::spec_round_inputs(
                    self.spec_challenges(),
                    j as nat,
                    j_prime as nat,
                    w_j_prime as nat,
                    table_views(m@),
                );
                &&& r.0@ == round_value(ri, 0)
                &&& r.1@ == round_value(ri, 1)
                &&& r.2@ == round_value(ri, 2)
            }),
    {
        let ghost ri = Self::spec_round_inputs(
            self.spec_challenges(),
            j as nat,
            j_prime as nat,
            w_j_prime as nat,
            table_views(m@),
        );
        let mut r_prime: Vec<Fr> = Vec::new();
        let mut t = j_prime - 1;
        while t < j - 1
            invariant
                1 <= j_prime,
                j_prime - 1 <= t <= j - 1,
                j - 1 <= self.challenges.len(),
                r_prime@ == self.challenges@.subrange(j_prime - 1, t as int),
            decreases j - 1 - t,
        {
            let ghost before = r_prime@;
            r_prime.push(self.challenges[t]);
            proof {
                let a = j_prime - 1;
                assert(before =~= self.challenges@.subrange(a, t as int));
                assert(self.challenges@.subrange(a, t + 1) =~= self.challenges@.subrange(
                    a,
                    t as int,
                ).push(self.challenges@[t as int]));
            }
            t = t + 1;
        }
        let low = j - j_prime;
        let high = w_j_prime - (low + 1);
        proof {
            lemma_usize_bits();
            lemma_pow2_adds(high as nat, (low + 1) as nat);
            lemma_pow2_pos(high as nat);
            lemma_pow2_pos(low as nat);
            vstd::arithmetic::power2::lemma_pow2_unfold((low + 1) as nat);
            vstd::bits::lemma_usize_pow2_no_overflow(w_j_prime as nat);
        }
        let eq_r_prime = EqPolynomial::evals(r_prime.as_slice());
        let b1_b2_space_size = pow2_usize(low);
        let b_space_size = pow2_usize(high);
        let mut f_0 = Fr::zero();
        let mut f_1 = Fr::zero();
        let mut f_z = Fr::zero();
        let z = Fr::from_u64(2);
        let one = Fr::one();
        let a = one.minus(&z).times(&one.minus(&z));
        let zo = z.times(&one.minus(&z));
        let zz = z.times(&z);
        let mut b1: usize = 0;
        while b1 < b1_b2_space_size
            invariant
                b1 <= b1_b2_space_size,
                b1_b2_space_size == pow2(low as nat),
                b_space_size == pow2(high as nat),
                ri == Self::spec_round_inputs(
                    self.spec_challenges(),
                    j as nat,
                    j_prime as nat,
                    w_j_prime as nat,
                    table_views(m@),
                ),
                views(eq_r_prime@) == ri.chi,
                ri.low == low,
                ri.rest == b_space_size,
                eq_r_prime.len() == pow2(low as nat),
                w_j_prime < usize::BITS,
                low + 1 + high == w_j_prime,
                pow2(w_j_prime as nat) == pow2(high as nat) * pow2((low + 1) as nat),
                pow2((low + 1) as nat) == 2 * pow2(low as nat),
                pow2(w_j_prime as nat) <= usize::MAX,
                m.len() >= pow2(w_j_prime as nat),
                forall|i: int| 0 <= i < pow2(w_j_prime as nat) ==> #[trigger] m@[i].len() >= pow2(
                    w_j_prime as nat,
                ),
                a@ == fmul(fsub(1, 2), fsub(1, 2)),
                zo@ == fmul(2, fsub(1, 2)),
                zz@ == fmul(2, 2),
                f_0@ == round_acc(ri, 0, b1 as nat, 0, 0),
                f_1@ == round_acc(ri, 1, b1 as nat, 0, 0),
                f_z@ == round_acc(ri, 2, b1 as nat, 0, 0),
            decreases b1_b2_space_size - b1,
        {
            let mut b2: usize = 0;
            while b2 < b1_b2_space_size
                invariant
                    b1 < b1_b2_space_size,
                    b2 <= b1_b2_space_size,
                    b1_b2_space_size == pow2(low as nat),
                    b_space_size == pow2(high as nat),
                    views(eq_r_prime@) == ri.chi,
                    ri.table == table_views(m@),
                    ri.low == low,
                    ri.rest == b_space_size,
                    eq_r_prime.len() == pow2(low as nat),
                    w_j_prime < usize::BITS,
                    low + 1 + high == w_j_prime,
                    pow2(w_j_prime as nat) == pow2(high as nat) * pow2((low + 1) as nat),
                    pow2((low + 1) as nat) == 2 * pow2(low as nat),
                    pow2(w_j_prime as nat) <= usize::MAX,
                    m.len() >= pow2(w_j_prime as nat),
                    forall|i: int| 0 <= i < pow2(w_j_prime as nat) ==> #[trigger] m@[i].len()
                        >= pow2(w_j_prime as nat),
                    a@ == fmul(fsub(1, 2), fsub(1, 2)),
                    zo@ == fmul(2, fsub(1, 2)),
                    zz@ == fmul(2, 2),
                    f_0@ == round_acc(ri, 0, b1 as nat, b2 as nat, 0),
                    f_1@ == round_acc(ri, 1, b1 as nat, b2 as nat, 0),
                    f_z@ == round_acc(ri, 2, b1 as nat, b2 as nat, 0),
                decreases b1_b2_space_size - b2,
            {
                let chi_product = eq_r_prime[b1].times(&eq_r_prime[b2]);
                proof {
                    assert(views(eq_r_prime@)[b1 as int] == eq_r_prime@[b1 as int]@);
                    assert(views(eq_r_prime@)[b2 as int] == eq_r_prime@[b2 as int]@);
                }
                let mut b: usize = 0;
                while b < b_space_size
                    invariant
                        b1 < b1_b2_space_size,
                        b2 < b1_b2_space_size,
                        b <= b_space_size,
                        b1_b2_space_size == pow2(low as nat),
                        b_space_size == pow2(high as nat),
                        views(eq_r_prime@) == ri.chi,
                        ri.table == table_views(m@),
                        ri.low == low,
                        ri.rest == b_space_size,
                        chi_product@ == fmul(ri.chi[b1 as int], ri.chi[b2 as int]),
                        eq_r_prime.len() == pow2(low as nat),
                        w_j_prime < usize::BITS,
                        low + 1 + high == w_j_prime,
                        pow2(w_j_prime as nat) == pow2(high as nat) * pow2((low + 1) as nat),
                        pow2((low + 1) as nat) == 2 * pow2(low as nat),
                        pow2(w_j_prime as nat) <= usize::MAX,
                        m.len() >= pow2(w_j_prime as nat),
                        forall|i: int| 0 <= i < pow2(w_j_prime as nat) ==> #[trigger] m@[i].len()
                            >= pow2(w_j_prime as nat),
                        a@ == fmul(fsub(1, 2), fsub(1, 2)),
                        zo@ == fmul(2, fsub(1, 2)),
                        zz@ == fmul(2, 2),
                        f_0@ == round_acc(ri, 0, b1 as nat, b2 as nat, b as nat),
                        f_1@ == round_acc(ri, 1, b1 as nat, b2 as nat, b as nat),
                        f_z@ == round_acc(ri, 2, b1 as nat, b2 as nat, b as nat),
                    decreases b_space_size - b,
                {
                    proof {
                        let pl = pow2(low as nat);
                        let ph = pow2(high as nat);
                        assert(b * (2 * pl) + pl + b1 < ph * (2 * pl)) by (nonlinear_arith)
                            requires
                                b < ph,
                                b1 < pl,
                        ;
                        assert(b * (2 * pl) + pl + b2 < ph * (2 * pl)) by (nonlinear_arith)
                            requires
                                b < ph,
                                b2 < pl,
                        ;
                        assert(b * (2 * pl) >= 0) by (nonlinear_arith)
                            requires
                                b >= 0,
                                pl >= 0,
                        ;
                        vstd::arithmetic::power2::lemma2_to64();
                    }
                    let b1_0 = self.concatenate_bits(b, high, 0, 1, b1, low);
                    let b1_1 = self.concatenate_bits(b, high, 1, 1, b1, low);
                    let b2_0 = self.concatenate_bits(b, high, 0, 1, b2, low);
                    let b2_1 = self.concatenate_bits(b, high, 1, 1, b2, low);
                    proof {
                        assert(m@[b1_0 as int].len() >= pow2(w_j_prime as nat));
                        assert(m@[b1_1 as int].len() >= pow2(w_j_prime as nat));
                    }
                    let m_b1_0_b2_0 = m[b1_0][b2_0];
                    let m_b1_0_b2_1 = m[b1_0][b2_1];
                    let m_b1_1_b2_0 = m[b1_1][b2_0];
                    let m_b1_1_b2_1 = m[b1_1][b2_1];
                    f_0 = f_0.plus(&chi_product.times(&m_b1_0_b2_0));
                    f_1 = f_1.plus(&chi_product.times(&m_b1_1_b2_1));
                    let comb = m_b1_0_b2_0.times(&a).plus(&m_b1_0_b2_1.times(&zo)).plus(
                        &m_b1_1_b2_0.times(&zo),
                    ).plus(&m_b1_1_b2_1.times(&zz));
                    proof {
                        lemma_diagonal_at_two(
                            m_b1_0_b2_0@ as int,
                            m_b1_0_b2_1@ as int,
                            m_b1_1_b2_0@ as int,
                            m_b1_1_b2_1@ as int,
                            a@ as int,
                            zo@ as int,
                            zz@ as int,
                        );
                        assert(table_views(m@)[b1_0 as int][b2_0 as int] == m_b1_0_b2_0@);
                        assert(table_views(m@)[b1_0 as int][b2_1 as int] == m_b1_0_b2_1@);
                        assert(table_views(m@)[b1_1 as int][b2_0 as int] == m_b1_1_b2_0@);
                        assert(table_views(m@)[b1_1 as int][b2_1 as int] == m_b1_1_b2_1@);
                    }
                    f_z = f_z.plus(&chi_product.times(&comb));
                    b = b + 1;
                }
                b2 = b2 + 1;
            }
            b1 = b1 + 1;
        }
        (f_0, f_1, f_z)
    }

    /// Concatenates three bit strings, `bits1` most significant and `bits3` least:
    /// `(bits1 << (len2 + len3)) | (bits2 << len3) | bits3`. When `bits2` and `bits3` fit
    /// their widths and the result fits a word, this is
    /// `bits1 · 2^(len2+len3) + bits2 · 2^len3 + bits3`.
    pub fn concatenate_bits(
        &self,
        bits1: usize,
        _len1: usize,
        bits2: usize,
        len2: usize,
        bits3: usize,
        len3: usize,
    ) -> (r: usize)
        requires
            len2 + len3 < usize::BITS,
        ensures
            r == (((bits1 << ((len2 + len3) as usize)) | (bits2 << len3)) | bits3),
            bits2 < pow2(len2 as nat) && bits3 < pow2(len3 as nat) && bits1 * pow2(
                (len2 + len3) as nat,
            ) + bits2 * pow2(len3 as nat) + bits3 <= usize::MAX ==> r == bits1 * pow2(
                (len2 + len3) as nat,
            ) + bits2 * pow2(len3 as nat) + bits3,
    {
        let r = (bits1 << (len2 + len3)) | (bits2 << len3) | bits3;
        proof {
            let s = (len2 + len3) as usize;
            if bits2 < pow2(len2 as nat) && bits3 < pow2(len3 as nat) && bits1 * pow2(s as nat)
                + bits2 * pow2(len3 as nat) + bits3 <= usize::MAX {
                lemma_usize_bits();
                lemma_pow2_pos(len2 as nat);
                lemma_pow2_pos(len3 as nat);
                lemma_pow2_adds(len2 as nat, len3 as nat);
                vstd::bits::lemma_usize_pow2_no_overflow(len2 as nat);
                vstd::bits::lemma_usize_pow2_no_overflow(len3 as nat);
                lemma_usize_shl_is_mul(1, len2);
                lemma_usize_shl_is_mul(1, len3);
                let p2 = pow2(len2 as nat);
                let p3 = pow2(len3 as nat);
                assert(bits1 * p2 <= bits1 * (p2 * p3)) by (nonlinear_arith)
                    requires
                        p3 >= 1,
                ;
                lemma_usize_shl_is_mul(bits1, len2);
                lemma_shl_or_factor(bits1, bits2, len2, len3);
                lemma_shl_or_is_add(bits1, bits2, len2);
                let c = ((bits1 << len2) | bits2) as usize;
                assert(c * p3 == bits1 * (p2 * p3) + bits2 * p3) by (nonlinear_arith)
                    requires
                        c == bits1 * p2 + bits2,
                ;
                lemma_usize_shl_is_mul(c, len3);
                lemma_shl_or_is_add(c, bits3, len3);
            }
        }
        r
    }
}

} // verus!
