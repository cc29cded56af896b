//! Streams of field elements, presented one element at a time, so that algorithms
//! such as space-efficient sumchecks never hold a whole sequence in memory.
use crate::eq_poly::{eq_eval, eq_table, EqPolynomial};
use crate::field::{
    cong, fadd, fmul, fsub, lemma_cong_ops, lemma_cong_residue, lemma_fops_range, lemma_fmul_assoc, lemma_fmul_comm, lemma_fmul_swap4,
    lemma_fr_view_range, lemma_modulus_large, lemma_one_minus_nonzero, lemma_residue, pm, views,
    Fr,
};
use crate::math::{
    count_trailing_ones, lemma_usize_bits, next_pow2, next_power_of_two, pow2_usize, trailing_ones,
};
use vstd::arithmetic::power2::{lemma_pow2_pos, lemma_pow2_unfold, pow2};
use vstd::prelude::*;

verus! {

/// A sequence of field elements consumed one element at a time.
///
/// `spec_values` is the whole sequence the stream presents from its start and
/// `spec_position` how many elements have been produced since the last reset.
pub trait FunctionStream: Sized {
    /// The elements the stream presents, in order.
    spec fn spec_values(&self) -> Seq<int>;

    /// The number of elements produced since the last reset.
    spec fn spec_position(&self) -> nat;

    /// Whether producing the element at `position` succeeds.
    spec fn spec_ok_at(&self, position: nat) -> bool;

    /// A stream never stands past the end of its elements.
    proof fn lemma_position_bound(&self)
        ensures
            self.spec_position() <= self.spec_values().len(),
    ;

    /// Asking for an element past the end always succeeds (and gives `None`).
    proof fn lemma_ok_at_end(&self)
        ensures
            self.spec_ok_at(self.spec_values().len()),
    ;

    /// Rewinds the stream to its start.
    fn reset(&mut self)
        ensures
            final(self).spec_values() == old(self).spec_values(),
            final(self).spec_position() == 0,
            forall|p: nat| #[trigger] final(self).spec_ok_at(p) == old(self).spec_ok_at(p),
    ;

    /// The next element, or `None` once all elements have been produced.
    fn next(&mut self) -> (r: Option<Fr>)
        requires
            old(self).spec_ok_at(old(self).spec_position()),
        ensures
            final(self).spec_values() == old(self).spec_values(),
            forall|p: nat| #[trigger] final(self).spec_ok_at(p) == old(self).spec_ok_at(p),
            old(self).spec_position() < old(self).spec_values().len() ==> {
                &&& r is Some
                &&& r.unwrap()@ == old(self).spec_values()[old(self).spec_position() as int]
                &&& final(self).spec_position() == old(self).spec_position() + 1
            },
            old(self).spec_position() >= old(self).spec_values().len() ==> {
                &&& r is None
                &&& final(self).spec_position() == old(self).spec_position()
            },
    ;

    /// The elements not yet produced, in order; the stream is consumed.
    fn into_vec(self) -> (r: Vec<Fr>)
        requires
            forall|p: nat|
                self.spec_position() <= p < self.spec_values().len() ==> #[trigger] self.spec_ok_at(p),
        ensures
            views(r@) == self.spec_values().skip(self.spec_position() as int),
    ;
}

// ---------------------------------------------------------------------------
// A stream over stored values.

/// Streams the entries of a vector in order.
pub struct VecStream {
    values: Vec<Fr>,
    index: usize,
}

impl VecStream {
    /// A stream over `values`, positioned at its start.
    pub fn new(values: Vec<Fr>) -> (r: Self)
        ensures
            r.spec_values() == views(values@),
            r.spec_position() == 0,
    {
        VecStream { values, index: 0 }
    }
}

impl FunctionStream for VecStream {
    closed spec fn spec_values(&self) -> Seq<int> {
        views(self.values@)
    }

    closed spec fn spec_position(&self) -> nat {
        if self.index <= self.values.len() {
            self.index as nat
        } else {
            self.values.len() as nat
        }
    }

    open spec fn spec_ok_at(&self, position: nat) -> bool {
        true
    }

    proof fn lemma_position_bound(&self) {
    }

    proof fn lemma_ok_at_end(&self) {
    }

    fn reset(&mut self) {
        self.index = 0;
    }

    fn next(&mut self) -> (r: Option<Fr>) {
        if self.index < self.values.len() {
            let result = self.values[self.index];
            self.index = self.index + 1;
            Some(result)
        } else {
            None
        }
    }

    fn into_vec(self) -> (r: Vec<Fr>) {
        let mut s = self;
        let ghost vals = s.spec_values();
        let ghost start = s.spec_position();
        proof {
            s.lemma_position_bound();
            assert(vals.skip(start as int).take(0) =~= Seq::<int>::empty());
        }
        let mut result: Vec<Fr> = Vec::new();
        loop
            invariant
                s.spec_values() == vals,
                start <= s.spec_position() <= vals.len(),
                forall|p: nat| start <= p < vals.len() ==> #[trigger] s.spec_ok_at(p),
                views(result@) == vals.subrange(start as int, s.spec_position() as int),
            ensures
                views(result@) == vals.skip(start as int),
                s.spec_position() == vals.len(),
                s.spec_values() == vals,
            decreases vals.len() - s.spec_position(),
        {
            let ghost before = result@;
            let ghost pos = s.spec_position();
            proof {
                if pos < vals.len() {
                    assert(s.spec_ok_at(pos));
                } else {
                    s.lemma_ok_at_end();
                }
            }
            match s.next() {
                Some(value) => {
                    result.push(value);
                    proof {
                        assert(value@ == vals[pos as int]);
                        assert(views(result@) =~= views(before).push(value@ as int));
                        assert(views(result@) =~= vals.subrange(start as int, pos + 1 as int));
                    }
                },
                None => {
                    proof {
                        assert(vals.subrange(start as int, pos as int) =~= vals.skip(start as int));
                    }
                    break ;
                },
            }
        }
        result
    }
}

// ---------------------------------------------------------------------------
// The Lagrange basis stream.

/// Moving from index `w` to `w + 1` flips the trailing ones of `w` to zeros and the
/// zero above them to one. Each stream step divides by `1 - r` at that zero and by `r`
/// at each trailing one; `step_ok` says these divisors are non-zero for the step that
/// produces index `v`.
pub open spec fn step_ok(r: Seq<int>, v: nat) -> bool {
    let j = trailing_ones((v - 1) as nat);
    &&& j < r.len()
    &&& r[r.len() - 1 - j] != 1
    &&& forall|i: int| 0 <= i < j ==> #[trigger] r[r.len() - 1 - i] != 0
}

/// The product of the factors of `eq(r, w)` at the lowest `j + 1` bits of `w`, when
/// those bits are `0` followed by `j` ones.
pub open spec fn flip_before(r: Seq<int>, j: nat) -> int
    decreases j,
{
    if j == 0 {
        fsub(1, r.last())
    } else {
        fmul(flip_before(r.drop_last(), (j - 1) as nat), r.last() % pm())
    }
}

/// The product of the factors of `eq(r, w + 1)` at the same bits, now `1` followed by
/// `j` zeros.
pub open spec fn flip_after(r: Seq<int>, j: nat) -> int
    decreases j,
{
    if j == 0 {
        r.last() % pm()
    } else {
        fmul(flip_after(r.drop_last(), (j - 1) as nat), fsub(1, r.last()))
    }
}

/// Appending the next element of `vals` keeps a prefix of `vals`.
proof fn lemma_views_push(before: Seq<Fr>, x: Fr, vals: Seq<int>, k: int)
    requires
        0 <= k < vals.len(),
        views(before) == vals.take(k),
        x@ == vals[k],
    ensures
        views(before.push(x)) == vals.take(k + 1),
{
    let after = before.push(x);
    assert(views(before).len() == before.len());
    assert(vals.take(k).len() == k);
    assert(before.len() == k);
    assert(views(after).len() == k + 1);
    assert forall|i: int| 0 <= i < k + 1 implies #[trigger] views(after)[i] == vals.take(k + 1)[i] by {
        assert(views(after)[i] == after[i]@ as int);
        if i < k {
            assert(after[i] == before[i]);
            assert(views(before)[i] == before[i]@ as int);
            assert(views(before)[i] == vals.take(k)[i]);
        }
    }
    assert(views(after) =~= vals.take(k + 1));
}

/// An index below `2^n - 1` has fewer than `n` trailing ones.
proof fn lemma_trailing_ones_bound(w: nat, n: nat)
    requires
        w + 1 < pow2(n),
    ensures
        trailing_ones(w) < n,
    decreases n,
{
    lemma_pow2_pos(n);
    if n > 0 {
        lemma_pow2_unfold(n);
        if w % 2 == 1 {
            lemma_trailing_ones_bound(w / 2, (n - 1) as nat);
        }
    } else {
        vstd::arithmetic::power2::lemma2_to64();
        assert(false);
    }
}

/// `eq(r, w)` and `eq(r, w + 1)` share the factors above the flipped bits.
proof fn lemma_eq_flip(r: Seq<int>, w: nat)
    requires
        trailing_ones(w) < r.len(),
    ensures
        ({
            let j = trailing_ones(w);
            let c = eq_eval(r.take(r.len() - 1 - j), w / pow2(j + 1));
            &&& eq_eval(r, w) == fmul(c, flip_before(r, j))
            &&& eq_eval(r, w + 1) == fmul(c, flip_after(r, j))
        }),
    decreases r.len(),
{
    let n = r.len();
    let j = trailing_ones(w);
    let r2 = r.drop_last();
    let l = r.last();
    lemma_pow2_unfold(1);
    vstd::arithmetic::power2::lemma2_to64();
    if w % 2 == 0 {
        assert(j == 0);
        assert(r.take(n - 1) =~= r2);
        assert((w + 1) / 2 == w / 2 && (w + 1) % 2 == 1) by (nonlinear_arith)
            requires
                w % 2 == 0,
        ;
    } else {
        let u = w / 2;
        assert(j == 1 + trailing_ones(u));
        lemma_eq_flip(r2, u);
        assert(r2.take(r2.len() - 1 - (j - 1)) =~= r.take(n - 1 - j));
        lemma_pow2_unfold(j + 1);
        lemma_pow2_pos(j);
        vstd::arithmetic::div_mod::lemma_div_denominator(w as int, 2, pow2(j) as int);
        assert((w + 1) / 2 == u + 1 && (w + 1) % 2 == 0) by (nonlinear_arith)
            requires
                w % 2 == 1,
                u == w / 2,
        ;
        let c = eq_eval(r.take(n - 1 - j), w / pow2(j + 1));
        lemma_fmul_assoc(c, flip_before(r2, (j - 1) as nat), l % pm());
        lemma_fmul_assoc(c, flip_after(r2, (j - 1) as nat), fsub(1, l));
    }
}

/// Streams `χ_v(r) = eq(r, v)` for `v = 0, 1, .., 2^n - 1`, each computed from the
/// previous one by one multiplication.
pub struct LagrangeBasisStream<'a> {
    input: &'a [Fr],
    state: Fr,
    index: usize,
    index_range: usize,
}

impl<'a> LagrangeBasisStream<'a> {
    #[verifier::type_invariant]
    spec fn inv(self) -> bool {
        &&& self.input.len() < usize::BITS
        &&& self.index_range == pow2(self.input.len() as nat)
        &&& self.index <= self.index_range
        &&& self.state@ == eq_eval(
            views(self.input@),
            if self.index == 0 {
                0
            } else {
                (self.index - 1) as nat
            },
        )
    }

    /// The point `r`.
    pub closed spec fn spec_input(self) -> Seq<Fr> {
        self.input@
    }

    /// A stream over the point `input`, positioned at its start.
    pub fn new(input: &'a [Fr]) -> (r: Self)
        requires
            input.len() < usize::BITS,
        ensures
            r.spec_input() == input@,
            r.spec_position() == 0,
            r.spec_values() == Seq::new(
                pow2(input.len() as nat),
                |v: int| eq_eval(views(input@), v as nat),
            ),
    {
        let initial_state = Self::initial_state(input);
        LagrangeBasisStream {
            input,
            state: initial_state,
            index: 0,
            index_range: pow2_usize(input.len()),
        }
    }

    /// `χ_0(r) = ∏ (1 - r_i)`.
    fn initial_state(input: &[Fr]) -> (r: Fr)
        ensures
            r@ == eq_eval(views(input@), 0),
    {
        let ghost rv = views(input@);
        let one = Fr::one();
        let mut acc = Fr::one();
        let mut i: usize = 0;
        proof {
            assert(rv.take(0) =~= Seq::<int>::empty());
        }
        while i < input.len()
            invariant
                rv == views(input@),
                i <= input.len(),
                one@ == 1,
                acc@ == eq_eval(rv.take(i as int), 0),
            decreases input.len() - i,
        {
            let r_i = input[i];
            acc = acc.times(&one.minus(&r_i));
            proof {
                assert(rv.take(i + 1).drop_last() =~= rv.take(i as int));
            }
            i = i + 1;
        }
        proof {
            assert(rv.take(input.len() as int) =~= rv);
        }
        acc
    }
}

impl<'a> FunctionStream for LagrangeBasisStream<'a> {
    closed spec fn spec_values(&self) -> Seq<int> {
        Seq::new(pow2(self.input.len() as nat), |v: int| eq_eval(views(self.input@), v as nat))
    }

    closed spec fn spec_position(&self) -> nat {
        if self.index <= pow2(self.input.len() as nat) {
            self.index as nat
        } else {
            pow2(self.input.len() as nat)
        }
    }

    open spec fn spec_ok_at(&self, position: nat) -> bool {
        position == 0 || position >= pow2(self.spec_input().len()) || step_ok(
            views(self.spec_input()),
            position,
        )
    }

    proof fn lemma_position_bound(&self) {
    }

    proof fn lemma_ok_at_end(&self) {
    }

    fn reset(&mut self) {
        proof {
            use_type_invariant(&*self);
        }
        let state = LagrangeBasisStream::initial_state(self.input);
        *self = LagrangeBasisStream {
            input: self.input,
            state,
            index: 0,
            index_range: self.index_range,
        };
    }

    fn next(&mut self) -> (r: Option<Fr>) {
        proof {
            use_type_invariant(&*self);
        }
        if self.index >= self.index_range {
            return None;
        }
        if self.index == 0 {
            *self = LagrangeBasisStream {
                input: self.input,
                state: self.state,
                index: 1,
                index_range: self.index_range,
            };
            return Some(self.state);
        }
        let ghost rv = views(self.input@);
        let v_minus_1 = self.index - 1;
        let j = count_trailing_ones(v_minus_1);
        let n = self.input.len();
        proof {
            lemma_trailing_ones_bound(v_minus_1 as nat, n as nat);
            lemma_modulus_large();
        }
        let one = Fr::one();
        let r_j = self.input[n - 1 - j];
        let one_minus_r_j = one.minus(&r_j);
        proof {
            assert(rv[n - 1 - j] == r_j@);
            lemma_fr_view_range(r_j);
            lemma_one_minus_nonzero(r_j@ as int);
        }
        let mut factor = r_j.over(&one_minus_r_j);
        proof {
            assert(rv.take(n - j).last() == rv[n - 1 - j]);
            lemma_residue(r_j@ as int);
        }
        let mut i = j;
        while i > 0
            invariant
                rv == views(self.input@),
                n == self.input.len(),
                j < n,
                i <= j,
                one@ == 1,
                step_ok(rv, self.index as nat),
                j == trailing_ones((self.index - 1) as nat),
                fmul(factor@ as int, flip_before(rv.take(n - i), (j - i) as nat)) == flip_after(
                    rv.take(n - i),
                    (j - i) as nat,
                ),
            decreases i,
        {
            i = i - 1;
            let r_i = self.input[n - 1 - i];
            proof {
                assert(rv[n - 1 - i] == r_i@);
                assert(r_i@ != 0);
                lemma_fr_view_range(r_i);
                lemma_residue(r_i@ as int);
                assert(rv.take(n - i).drop_last() =~= rv.take(n - (i + 1)));
                assert(rv.take(n - i).last() == r_i@);
            }
            let d = one.minus(&r_i).over(&r_i);
            let ghost g = flip_before(rv.take(n - (i + 1)), (j - (i + 1)) as nat);
            proof {
                lemma_fmul_swap4(factor@ as int, d@ as int, g, r_i@ as int);
            }
            factor = factor.times(&d);
        }
        proof {
            assert(rv.take(n as int) =~= rv);
            let w = v_minus_1 as nat;
            lemma_eq_flip(rv, w);
            let c = eq_eval(rv.take(n - 1 - j), w / pow2((j + 1) as nat));
            let g = flip_before(rv, j as nat);
            lemma_fmul_assoc(c, g, factor@ as int);
            lemma_fmul_comm(g, factor@ as int);
        }
        let state = self.state.times(&factor);
        *self = LagrangeBasisStream {
            input: self.input,
            state,
            index: self.index + 1,
            index_range: self.index_range,
        };
        Some(state)
    }

    fn into_vec(self) -> (r: Vec<Fr>) {
        let mut s = self;
        let ghost vals = s.spec_values();
        let ghost start = s.spec_position();
        proof {
            s.lemma_position_bound();
            assert(vals.skip(start as int).take(0) =~= Seq::<int>::empty());
        }
        let mut result: Vec<Fr> = Vec::new();
        loop
            invariant
                s.spec_values() == vals,
                start <= s.spec_position() <= vals.len(),
                forall|p: nat| start <= p < vals.len() ==> #[trigger] s.spec_ok_at(p),
                views(result@) == vals.subrange(start as int, s.spec_position() as int),
            ensures
                views(result@) == vals.skip(start as int),
                s.spec_position() == vals.len(),
                s.spec_values() == vals,
            decreases vals.len() - s.spec_position(),
        {
            let ghost before = result@;
            let ghost pos = s.spec_position();
            proof {
                if pos < vals.len() {
                    assert(s.spec_ok_at(pos));
                } else {
                    s.lemma_ok_at_end();
                }
            }
            match s.next() {
                Some(value) => {
                    result.push(value);
                    proof {
                        assert(value@ == vals[pos as int]);
                        assert(views(result@) =~= views(before).push(value@ as int));
                        assert(views(result@) =~= vals.subrange(start as int, pos + 1 as int));
                    }
                },
                None => {
                    proof {
                        assert(vals.subrange(start as int, pos as int) =~= vals.skip(start as int));
                    }
                    break ;
                },
            }
        }
        result
    }
}

/// The stream of a Lagrange basis presents the table of `eq(r, ·)`.
pub proof fn lemma_lagrange_stream_is_eq_table(s: LagrangeBasisStream)
    ensures
        s.spec_values() == eq_table(views(s.spec_input())),
{
    assert(s.spec_values() =~= eq_table(views(s.spec_input())));
}

/// When every step of a Lagrange basis stream can divide, every position can be produced.
pub proof fn lemma_lagrange_stream_ok(s: LagrangeBasisStream)
    requires
        forall|v: nat| 0 < v < pow2(s.spec_input().len()) ==> #[trigger] step_ok(
            views(s.spec_input()),
            v,
        ),
    ensures
        forall|p: nat| #[trigger] s.spec_ok_at(p),
{
    assert forall|p: nat| #[trigger] s.spec_ok_at(p) by {
        if 0 < p && p < pow2(s.spec_input().len()) {
            assert(step_ok(views(s.spec_input()), p));
        }
    }
}

// ---------------------------------------------------------------------------
// Bytecode streams.

/// Register and immediate operands of a normalized instruction.
#[derive(Clone, Copy, Debug, PartialEq, Eq)]
pub struct NormalizedOperands {
    pub rs1: usize,
    pub rs2: usize,
    pub rd: usize,
    pub imm: i64,
}

/// An instruction reduced to the fields the lookup argument reads.
#[derive(Clone, Copy, Debug, PartialEq, Eq)]
pub struct NormalizedInstruction {
    pub address: usize,
    pub operands: NormalizedOperands,
    pub virtual_sequence_remaining: Option<usize>,
}

/// The preprocessed bytecode: one normalized instruction per bytecode row.
#[derive(Clone, Debug)]
pub struct BytecodePreprocessing {
    pub bytecode: Vec<NormalizedInstruction>,
}

impl BytecodePreprocessing {
    /// Number of bytecode rows.
    pub fn len(&self) -> (r: usize)
        ensures
            r == self.bytecode.len(),
    {
        self.bytecode.len()
    }

    /// The instruction at row `index`.
    pub fn get_bytecode_index(&self, index: usize) -> (r: &NormalizedInstruction)
        requires
            index < self.bytecode.len(),
        ensures
            *r == self.bytecode@[index as int],
    {
        &self.bytecode[index]
    }
}

/// The value of an instruction in the lookup argument:
/// `address + rd γ + rs1 γ² + rs2 γ³ + imm γ⁴`.
pub open spec fn instruction_val(instruction: NormalizedInstruction, gamma: int) -> int {
    (instruction.address + instruction.operands.rd * gamma + instruction.operands.rs1 * (gamma
        * gamma) + instruction.operands.rs2 * (gamma * gamma * gamma) + instruction.operands.imm * (
    gamma * gamma * gamma * gamma)) % pm()
}

/// Regrouping of the powers of `γ` in [`instruction_val`].
proof fn lemma_val_identity(a: int, rd: int, rs1: int, rs2: int, imm: int, g: int)
    ensures
        a * 1 + rd * (g * 1) + rs1 * (g * (g * 1)) + rs2 * (g * (g * (g * 1))) + imm * (g * (g * (g
            * (g * 1)))) == a + rd * g + rs1 * (g * g) + rs2 * (g * g * g) + imm * (g * g * g * g),
{
    assert(g * 1 == g);
    assert(g * (g * 1) == g * g);
    assert(g * (g * (g * 1)) == g * g * g) by (nonlinear_arith);
    assert(g * (g * (g * (g * 1))) == g * g * g * g) by (nonlinear_arith);
}

/// The value of one bytecode row in the lookup argument (see [`instruction_val`]).
pub fn bytecode_to_val(instruction: &NormalizedInstruction, gamma: Fr) -> (r: Fr)
    ensures
        r@ == instruction_val(*instruction, gamma@ as int),
{
    let mut gamma_powers: Vec<Fr> = Vec::new();
    gamma_powers.push(Fr::one());
    let mut t: usize = 0;
    while t < 5
        invariant
            t <= 5,
            gamma_powers.len() == t + 1,
            gamma_powers@[0]@ == 1,
            t >= 1 ==> gamma_powers@[1]@ == fmul(gamma@ as int, 1),
            t >= 2 ==> gamma_powers@[2]@ == fmul(gamma@ as int, gamma_powers@[1]@ as int),
            t >= 3 ==> gamma_powers@[3]@ == fmul(gamma@ as int, gamma_powers@[2]@ as int),
            t >= 4 ==> gamma_powers@[4]@ == fmul(gamma@ as int, gamma_powers@[3]@ as int),
        decreases 5 - t,
    {
        let last = gamma_powers[t];
        gamma_powers.push(gamma.times(&last));
        t = t + 1;
    }
    let operands = instruction.operands;
    let mut lc = Fr::zero();
    lc = lc.plus(&Fr::from_u64(instruction.address as u64).times(&gamma_powers[0]));
    lc = lc.plus(&Fr::from_u64(operands.rd as u64).times(&gamma_powers[1]));
    lc = lc.plus(&Fr::from_u64(operands.rs1 as u64).times(&gamma_powers[2]));
    lc = lc.plus(&Fr::from_u64(operands.rs2 as u64).times(&gamma_powers[3]));
    let imm = Fr::from_i128(operands.imm as i128);
    lc = lc.plus(&imm.times(&gamma_powers[4]));
    proof {
        lemma_usize_bits();
        lemma_modulus_large();
        let g = gamma@ as int;
        let p0 = gamma_powers@[0]@ as int;
        let p1 = gamma_powers@[1]@ as int;
        let p2 = gamma_powers@[2]@ as int;
        let p3 = gamma_powers@[3]@ as int;
        let p4 = gamma_powers@[4]@ as int;
        let a = instruction.address as int;
        let rd = operands.rd as int;
        let rs1 = operands.rs1 as int;
        let rs2 = operands.rs2 as int;
        let im = operands.imm as int;
        lemma_cong_ops(g, g, 1, 1);
        lemma_cong_ops(g, g, p1, g * 1);
        lemma_cong_ops(g, g, p2, g * (g * 1));
        lemma_cong_ops(g, g, p3, g * (g * (g * 1)));
        assert(cong(p0, 1));
        lemma_cong_ops(a, a, p0, 1);
        lemma_cong_ops(rd, rd, p1, g * 1);
        lemma_cong_ops(rs1, rs1, p2, g * (g * 1));
        lemma_cong_ops(rs2, rs2, p3, g * (g * (g * 1)));
        assert(cong(im % pm(), im)) by {
            vstd::arithmetic::div_mod::lemma_mod_twice(im, pm());
        }
        lemma_cong_ops(im % pm(), im, p4, g * (g * (g * (g * 1))));
        let t0 = fmul(a, p0);
        let t1 = fmul(rd, p1);
        let t2 = fmul(rs1, p2);
        let t3 = fmul(rs2, p3);
        let t4 = fmul(im % pm(), p4);
        lemma_cong_ops(0, 0, t0, a * 1);
        lemma_cong_ops(fadd(0, t0), a * 1, t1, rd * (g * 1));
        lemma_cong_ops(fadd(fadd(0, t0), t1), a * 1 + rd * (g * 1), t2, rs1 * (g * (g * 1)));
        lemma_cong_ops(
            fadd(fadd(fadd(0, t0), t1), t2),
            a * 1 + rd * (g * 1) + rs1 * (g * (g * 1)),
            t3,
            rs2 * (g * (g * (g * 1))),
        );
        lemma_cong_ops(
            fadd(fadd(fadd(fadd(0, t0), t1), t2), t3),
            a * 1 + rd * (g * 1) + rs1 * (g * (g * 1)) + rs2 * (g * (g * (g * 1))),
            t4,
            im * (g * (g * (g * (g * 1)))),
        );
        lemma_val_identity(a, rd, rs1, rs2, im, g);
        lemma_fops_range(fadd(fadd(fadd(fadd(0, t0), t1), t2), t3), t4);
        lemma_cong_residue(
            lc@ as int,
            a + rd * g + rs1 * (g * g) + rs2 * (g * g * g) + im * (g * g * g * g),
        );
    }
    lc
}

/// Streams the lookup value of each bytecode row, computed on demand.
pub struct ValStream {
    bytecode_preprocessing: BytecodePreprocessing,
    gamma: Fr,
    index: usize,
}

impl ValStream {
    /// A stream over the rows of `bytecode_preprocessing` with challenge `gamma`.
    pub fn new(bytecode_preprocessing: BytecodePreprocessing, gamma: Fr) -> (r: Self)
        ensures
            r.spec_position() == 0,
            r.spec_values() == Seq::new(
                bytecode_preprocessing.bytecode.len() as nat,
                |i: int| instruction_val(bytecode_preprocessing.bytecode@[i], gamma@ as int),
            ),
    {
        ValStream { bytecode_preprocessing, gamma, index: 0 }
    }
}

impl FunctionStream for ValStream {
    closed spec fn spec_values(&self) -> Seq<int> {
        Seq::new(
            self.bytecode_preprocessing.bytecode.len() as nat,
            |i: int| instruction_val(self.bytecode_preprocessing.bytecode@[i], self.gamma@ as int),
        )
    }

    closed spec fn spec_position(&self) -> nat {
        if self.index <= self.bytecode_preprocessing.bytecode.len() {
            self.index as nat
        } else {
            self.bytecode_preprocessing.bytecode.len() as nat
        }
    }

    open spec fn spec_ok_at(&self, position: nat) -> bool {
        true
    }

    proof fn lemma_position_bound(&self) {
    }

    proof fn lemma_ok_at_end(&self) {
    }

    fn reset(&mut self) {
        self.index = 0;
    }

    fn next(&mut self) -> (r: Option<Fr>) {
        if self.index < self.bytecode_preprocessing.len() {
            let bytecode = self.bytecode_preprocessing.get_bytecode_index(self.index);
            let result = bytecode_to_val(bytecode, self.gamma);
            self.index = self.index + 1;
            Some(result)
        } else {
            None
        }
    }

    fn into_vec(self) -> (r: Vec<Fr>) {
        let mut s = self;
        let ghost vals = s.spec_values();
        let ghost start = s.spec_position();
        proof {
            s.lemma_position_bound();
            assert(vals.skip(start as int).take(0) =~= Seq::<int>::empty());
        }
        let mut result: Vec<Fr> = Vec::new();
        loop
            invariant
                s.spec_values() == vals,
                start <= s.spec_position() <= vals.len(),
                forall|p: nat| start <= p < vals.len() ==> #[trigger] s.spec_ok_at(p),
                views(result@) == vals.subrange(start as int, s.spec_position() as int),
            ensures
                views(result@) == vals.skip(start as int),
                s.spec_position() == vals.len(),
                s.spec_values() == vals,
            decreases vals.len() - s.spec_position(),
        {
            let ghost before = result@;
            let ghost pos = s.spec_position();
            proof {
                if pos < vals.len() {
                    assert(s.spec_ok_at(pos));
                } else {
                    s.lemma_ok_at_end();
                }
            }
            match s.next() {
                Some(value) => {
                    result.push(value);
                    proof {
                        assert(value@ == vals[pos as int]);
                        assert(views(result@) =~= views(before).push(value@ as int));
                        assert(views(result@) =~= vals.subrange(start as int, pos + 1 as int));
                    }
                },
                None => {
                    proof {
                        assert(vals.subrange(start as int, pos as int) =~= vals.skip(start as int));
                    }
                    break ;
                },
            }
        }
        result
    }
}

/// The sum of the entries `e[j]`, `j < t`, whose row `rows[j]` is `k`.
pub open spec fn row_sum(e: Seq<int>, rows: Seq<usize>, k: int, t: nat) -> int
    decreases t,
{
    if t == 0 {
        0
    } else if rows[t - 1] == k {
        fadd(row_sum(e, rows, k, (t - 1) as nat), e[t - 1])
    } else {
        row_sum(e, rows, k, (t - 1) as nat)
    }
}

/// The table over `num_rows` rows of the sums of `e` grouped by `rows`.
pub open spec fn row_sums(e: Seq<int>, rows: Seq<usize>, num_rows: nat) -> Seq<int> {
    Seq::new(num_rows, |k: int| row_sum(e, rows, k, rows.len()))
}

/// Sums of `e[j]` grouped by `rows[j]`, over `num_rows` rows.
fn accumulate_rows(e: &Vec<Fr>, rows: &[usize], num_rows: usize) -> (r: Vec<Fr>)
    requires
        rows.len() <= e.len(),
        forall|j: int| 0 <= j < rows.len() ==> #[trigger] rows@[j] < num_rows,
    ensures
        views(r@) == row_sums(views(e@), rows@, num_rows as nat),
{
    let ghost ev = views(e@);
    let mut result: Vec<Fr> = Vec::new();
    let mut k: usize = 0;
    while k < num_rows
        invariant
            k <= num_rows,
            result.len() == k,
            forall|t: int| 0 <= t < k ==> #[trigger] result@[t]@ == 0,
        decreases num_rows - k,
    {
        result.push(Fr::zero());
        k = k + 1;
    }
    let mut j: usize = 0;
    while j < rows.len()
        invariant
            ev == views(e@),
            rows.len() <= e.len(),
            forall|t: int| 0 <= t < rows.len() ==> #[trigger] rows@[t] < num_rows,
            j <= rows.len(),
            result.len() == num_rows,
            forall|t: int| 0 <= t < num_rows ==> #[trigger] result@[t]@ == row_sum(ev, rows@, t, j as nat),
        decreases rows.len() - j,
    {
        let k = rows[j];
        let updated = result[k].plus(&e[j]);
        result.set(k, updated);
        j = j + 1;
    }
    proof {
        assert(views(result@) =~= row_sums(ev, rows@, num_rows as nat));
    }
    result
}

/// Streams the `ra` values of the lookup argument: for each bytecode row, the sum of
/// `eq(r_cycle, j)` over the cycles `j` that execute that row.
#[allow(non_snake_case)]
pub struct RaStream {
    bytecode_preprocessing: BytecodePreprocessing,
    F: Vec<Fr>,
    index: usize,
}

impl RaStream {
    /// Builds the stream from the row executed at each cycle (`pcs`), together with the
    /// table of the same sums for `r_shift` and the table `eq(r_cycle, ·)`. The number of
    /// rows is the bytecode length rounded up to a power of two.
    #[allow(non_snake_case)]
    pub fn new(
        bytecode_preprocessing: BytecodePreprocessing,
        pcs: &[usize],
        r_cycle: Vec<Fr>,
        r_shift: Vec<Fr>,
        _z: Fr,
    ) -> (r: (Self, Vec<Fr>, Vec<Fr>))
        requires
            bytecode_preprocessing.bytecode.len() <= usize::MAX / 2 + 1,
            r_cycle.len() < usize::BITS,
            r_shift.len() < usize::BITS,
            0 < pcs.len(),
            pcs.len() <= pow2(r_cycle.len() as nat),
            pcs.len() <= pow2(r_shift.len() as nat),
            forall|j: int|
                0 <= j < pcs.len() ==> #[trigger] pcs@[j] < next_pow2(
                    bytecode_preprocessing.bytecode.len() as nat,
                ),
        ensures
            r.0.spec_position() == 0,
            r.0.spec_values() == row_sums(
                eq_table(views(r_cycle@)),
                pcs@,
                next_pow2(bytecode_preprocessing.bytecode.len() as nat),
            ),
            views(r.1@) == row_sums(
                eq_table(views(r_shift@)),
                pcs@,
                next_pow2(bytecode_preprocessing.bytecode.len() as nat),
            ),
            views(r.2@) == eq_table(views(r_cycle@)),
    {
        let K = next_power_of_two(bytecode_preprocessing.len());
        let E = EqPolynomial::evals(r_cycle.as_slice());
        let E_shift = EqPolynomial::evals(r_shift.as_slice());
        let F = accumulate_rows(&E, pcs, K);
        let F_shift = accumulate_rows(&E_shift, pcs, K);
        (RaStream { bytecode_preprocessing, F, index: 0 }, F_shift, E)
    }

    /// All values of the stream; the stream is left at its start.
    pub fn get_vector(&mut self) -> (r: Vec<Fr>)
        ensures
            views(r@) == old(self).spec_values(),
            final(self).spec_values() == old(self).spec_values(),
            final(self).spec_position() == 0,
    {
        self.reset();
        let ghost vals = self.spec_values();
        let mut result: Vec<Fr> = Vec::new();
        loop
            invariant
                self.spec_values() == vals,
                self.spec_position() <= vals.len(),
                views(result@) == vals.take(self.spec_position() as int),
            ensures
                views(result@) == vals,
                self.spec_values() == vals,
            decreases vals.len() - self.spec_position(),
        {
            let ghost before = result@;
            let ghost pos = self.spec_position();
            match self.next() {
                Some(value) => {
                    result.push(value);
                    proof {
                        lemma_views_push(before, value, vals, pos as int);
                    }
                },
                None => {
                    proof {
                        assert(vals.take(pos as int) =~= vals);
                    }
                    break ;
                },
            }
        }
        self.reset();
        result
    }
}

impl FunctionStream for RaStream {
    closed spec fn spec_values(&self) -> Seq<int> {
        views(self.F@)
    }

    closed spec fn spec_position(&self) -> nat {
        if self.index <= self.F.len() {
            self.index as nat
        } else {
            self.F.len() as nat
        }
    }

    open spec fn spec_ok_at(&self, position: nat) -> bool {
        true
    }

    proof fn lemma_position_bound(&self) {
    }

    proof fn lemma_ok_at_end(&self) {
    }

    fn reset(&mut self) {
        self.index = 0;
    }

    fn next(&mut self) -> (r: Option<Fr>) {
        if self.index < self.F.len() {
            let result = self.F[self.index];
            self.index = self.index + 1;
            Some(result)
        } else {
            None
        }
    }

    fn into_vec(self) -> (r: Vec<Fr>) {
        let mut s = self;
        let ghost vals = s.spec_values();
        let ghost start = s.spec_position();
        proof {
            s.lemma_position_bound();
            assert(vals.skip(start as int).take(0) =~= Seq::<int>::empty());
        }
        let mut result: Vec<Fr> = Vec::new();
        loop
            invariant
                s.spec_values() == vals,
                start <= s.spec_position() <= vals.len(),
                forall|p: nat| start <= p < vals.len() ==> #[trigger] s.spec_ok_at(p),
                views(result@) == vals.subrange(start as int, s.spec_position() as int),
            ensures
                views(result@) == vals.skip(start as int),
                s.spec_position() == vals.len(),
                s.spec_values() == vals,
            decreases vals.len() - s.spec_position(),
        {
            let ghost before = result@;
            let ghost pos = s.spec_position();
            proof {
                if pos < vals.len() {
                    assert(s.spec_ok_at(pos));
                } else {
                    s.lemma_ok_at_end();
                }
            }
            match s.next() {
                Some(value) => {
                    result.push(value);
                    proof {
                        assert(value@ == vals[pos as int]);
                        assert(views(result@) =~= views(before).push(value@ as int));
                        assert(views(result@) =~= vals.subrange(start as int, pos + 1 as int));
                    }
                },
                None => {
                    proof {
                        assert(vals.subrange(start as int, pos as int) =~= vals.skip(start as int));
                    }
                    break ;
                },
            }
        }
        result
    }
}

} // verus!
