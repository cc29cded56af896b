//! The BN254 scalar field `Fr`, backed by `ark_bn254::Fr`.
//!
//! A field element is stored as its canonical little-endian 64-bit limbs; its
//! view is the integer it represents, always below the modulus. Arithmetic is
//! delegated to arkworks through the trusted wrappers at the end of this file,
//! each of which states the modular identity it computes.
use ark_ff::{BigInt, Field, PrimeField};
use vstd::arithmetic::div_mod::*;
use vstd::arithmetic::mul::*;
use vstd::prelude::*;

verus! {

/// The prime order of the BN254 scalar field.
#[verifier::opaque]
pub open spec fn modulus() -> nat {
    21888242871839275222246405745257275088548364400416034343698204186575808495617nat
}

/// The field order exceeds `2^128`, so every 128-bit integer is a residue.
pub proof fn lemma_modulus_large()
    ensures
        modulus() > 0x1_0000_0000_0000_0000_0000_0000_0000_0000nat,
{
    reveal(modulus);
}

/// `modulus()` as an `int`, the form used by the modular spec functions.
pub open spec fn pm() -> int {
    modulus() as int
}

/// Integer represented by four little-endian 64-bit limbs.
pub open spec fn limbs_value(l0: u64, l1: u64, l2: u64, l3: u64) -> nat {
    l0 as nat + l1 as nat * 0x1_0000_0000_0000_0000nat + l2 as nat
        * 0x1_0000_0000_0000_0000_0000_0000_0000_0000nat + l3 as nat
        * 0x1_0000_0000_0000_0000_0000_0000_0000_0000_0000_0000_0000_0000nat
}

/// Field addition on representatives.
pub open spec fn fadd(a: int, b: int) -> int {
    (a + b) % pm()
}

/// Field subtraction on representatives.
pub open spec fn fsub(a: int, b: int) -> int {
    (a - b) % pm()
}

/// Field multiplication on representatives.
pub open spec fn fmul(a: int, b: int) -> int {
    (a * b) % pm()
}

/// Field negation on representatives.
pub open spec fn fneg(a: int) -> int {
    (-a) % pm()
}

/// An element of the BN254 scalar field in canonical limb form.
#[derive(Clone, Copy, Debug, PartialEq, Eq, Structural)]
pub struct Fr {
    l0: u64,
    l1: u64,
    l2: u64,
    l3: u64,
}

impl Fr {
    /// Every value of `Fr` holds the canonical representative, below the modulus.
    #[verifier::type_invariant]
    spec fn canonical(self) -> bool {
        limbs_value(self.l0, self.l1, self.l2, self.l3) < modulus()
    }
}

impl View for Fr {
    type V = nat;

    closed spec fn view(&self) -> nat {
        limbs_value(self.l0, self.l1, self.l2, self.l3) % modulus()
    }
}

/// The view of a field element is a residue.
pub broadcast proof fn lemma_fr_view_range(x: Fr)
    ensures
        #[trigger] x@ < modulus(),
{
    lemma_modulus_large();
    lemma_mod_bound(limbs_value(x.l0, x.l1, x.l2, x.l3) as int, modulus() as int);
}

/// Views of a sequence of field elements.
pub open spec fn views(s: Seq<Fr>) -> Seq<int> {
    s.map_values(|x: Fr| x@ as int)
}

impl Fr {
    /// The additive identity.
    pub fn zero() -> (r: Fr)
        ensures
            r@ == 0,
    {
        proof {
            lemma_modulus_large();
            lemma_small_mod(limbs_value(0, 0, 0, 0), modulus());
        }
        Fr { l0: 0, l1: 0, l2: 0, l3: 0 }
    }

    /// The multiplicative identity.
    pub fn one() -> (r: Fr)
        ensures
            r@ == 1,
    {
        proof {
            lemma_modulus_large();
            lemma_small_mod(limbs_value(1, 0, 0, 0), modulus());
        }
        Fr { l0: 1, l1: 0, l2: 0, l3: 0 }
    }

    /// Embeds a 64-bit integer.
    pub fn from_u64(x: u64) -> (r: Fr)
        ensures
            r@ == x,
    {
        proof {
            lemma_modulus_large();
            lemma_small_mod(limbs_value(x, 0, 0, 0), modulus());
        }
        Fr { l0: x, l1: 0, l2: 0, l3: 0 }
    }

    /// Embeds a 128-bit unsigned integer.
    pub fn from_u128(x: u128) -> (r: Fr)
        ensures
            r@ == x,
    {
        let lo = (x % 0x1_0000_0000_0000_0000u128) as u64;
        let hi = (x / 0x1_0000_0000_0000_0000u128) as u64;
        proof {
            lemma_modulus_large();
            assert(limbs_value(lo, hi, 0, 0) == x);
            lemma_small_mod(x as nat, modulus());
        }
        Fr { l0: lo, l1: hi, l2: 0, l3: 0 }
    }

    /// Embeds a signed 128-bit integer (negative values wrap around the modulus).
    pub fn from_i128(x: i128) -> (r: Fr)
        ensures
            r@ == (x as int) % pm(),
    {
        if x >= 0 {
            let r = Fr::from_u128(x as u128);
            proof {
                lemma_modulus_large();
                lemma_small_mod(x as nat, modulus());
            }
            r
        } else {
            let m = if x == i128::MIN {
                0x8000_0000_0000_0000_0000_0000_0000_0000u128
            } else {
                (-x) as u128
            };
            let a = Fr::from_u128(m);
            let r = Fr::zero().minus(&a);
            proof {
                lemma_modulus_large();
                lemma_small_mod(m as nat, modulus());
            }
            r
        }
    }

    /// Whether this element is zero.
    pub fn is_zero(&self) -> (r: bool)
        ensures
            r == (self@ == 0),
    {
        proof {
            use_type_invariant(self);
            lemma_small_mod(limbs_value(self.l0, self.l1, self.l2, self.l3), modulus());
        }
        self.l0 == 0 && self.l1 == 0 && self.l2 == 0 && self.l3 == 0
    }

    /// Whether two elements are equal as field elements.
    pub fn equals(&self, other: &Fr) -> (r: bool)
        ensures
            r == (self@ == other@),
    {
        let d = self.minus(other);
        proof {
            lemma_modulus_large();
            lemma_fr_view_range(*self);
            lemma_fr_view_range(*other);
            if self@ != other@ {
                if self@ > other@ {
                    lemma_small_mod((self@ - other@) as nat, modulus());
                } else {
                    lemma_mod_add_multiples_vanish(self@ - other@, pm());
                    lemma_small_mod((pm() + self@ - other@) as nat, modulus());
                }
            } else {
                lemma_small_mod(0, modulus());
            }
        }
        d.is_zero()
    }

    /// `self + other`.
    pub fn plus(&self, other: &Fr) -> (r: Fr)
        ensures
            r@ == fadd(self@ as int, other@ as int),
    {
        ark_add(self, other)
    }

    /// `self - other`.
    pub fn minus(&self, other: &Fr) -> (r: Fr)
        ensures
            r@ == fsub(self@ as int, other@ as int),
    {
        ark_sub(self, other)
    }

    /// `self * other`.
    pub fn times(&self, other: &Fr) -> (r: Fr)
        ensures
            r@ == fmul(self@ as int, other@ as int),
    {
        ark_mul(self, other)
    }

    /// `self / other`; the divisor must be non-zero.
    pub fn over(&self, other: &Fr) -> (r: Fr)
        requires
            other@ != 0,
        ensures
            fmul(r@ as int, other@ as int) == self@,
    {
        ark_div(self, other)
    }

    /// The multiplicative inverse, or `None` for zero.
    pub fn inverse(&self) -> (r: Option<Fr>)
        ensures
            r is None <==> self@ == 0,
            r matches Some(x) ==> fmul(self@ as int, x@ as int) == 1,
    {
        ark_inverse(self)
    }
}

// ---------------------------------------------------------------------------
// Modular arithmetic facts used by the protocols.

/// Multiplication modulo the field order is commutative.
pub proof fn lemma_fmul_comm(a: int, b: int)
    ensures
        fmul(a, b) == fmul(b, a),
{
    lemma_modulus_large();
    lemma_mul_is_commutative(a, b);
}

/// Reducing an operand does not change a product.
pub proof fn lemma_fmul_mod_left(a: int, b: int)
    ensures
        fmul(a % pm(), b) == fmul(a, b),
{
    lemma_modulus_large();
    lemma_mul_mod_noop_left(a, b, pm());
}

/// Reducing an operand does not change a product.
pub proof fn lemma_fmul_mod_right(a: int, b: int)
    ensures
        fmul(a, b % pm()) == fmul(a, b),
{
    lemma_modulus_large();
    lemma_mul_mod_noop_right(a, b, pm());
}

/// Multiplication modulo the field order is associative.
pub proof fn lemma_fmul_assoc(a: int, b: int, c: int)
    ensures
        fmul(fmul(a, b), c) == fmul(a, fmul(b, c)),
{
    lemma_modulus_large();
    lemma_mul_mod_noop_left(a * b, c, pm());
    lemma_mul_mod_noop_right(a, b * c, pm());
    lemma_mul_is_associative(a, b, c);
}

/// Reducing an operand does not change a sum.
pub proof fn lemma_fadd_mod_right(a: int, b: int)
    ensures
        fadd(a, b % pm()) == fadd(a, b),
{
    lemma_modulus_large();
    lemma_add_mod_noop(a, b, pm());
    lemma_mod_twice(b, pm());
    lemma_add_mod_noop(a, b % pm(), pm());
}

/// Residues are their own reductions.
pub proof fn lemma_residue(a: int)
    requires
        0 <= a < pm(),
    ensures
        a % pm() == a,
{
    lemma_modulus_large();
    lemma_small_mod(a as nat, modulus());
}

/// Results of the modular operations are residues.
pub proof fn lemma_fops_range(a: int, b: int)
    ensures
        0 <= fadd(a, b) < pm(),
        0 <= fsub(a, b) < pm(),
        0 <= fmul(a, b) < pm(),
        0 <= fneg(a) < pm(),
{
    lemma_modulus_large();
    lemma_mod_bound(a + b, pm());
    lemma_mod_bound(a - b, pm());
    lemma_mod_bound(a * b, pm());
    lemma_mod_bound(-a, pm());
}

/// Congruence modulo the field order.
pub open spec fn cong(a: int, x: int) -> bool {
    a % pm() == x % pm()
}

/// Field sums, differences and products are congruent to the integer operations on
/// congruent operands.
pub proof fn lemma_cong_ops(a: int, x: int, b: int, y: int)
    requires
        cong(a, x),
        cong(b, y),
    ensures
        cong(fadd(a, b), x + y),
        cong(fsub(a, b), x - y),
        cong(fmul(a, b), x * y),
{
    lemma_modulus_large();
    lemma_add_mod_noop(a, b, pm());
    lemma_add_mod_noop(x, y, pm());
    lemma_sub_mod_noop(a, b, pm());
    lemma_sub_mod_noop(x, y, pm());
    lemma_mul_mod_noop(a, b, pm());
    lemma_mul_mod_noop(x, y, pm());
    lemma_mod_twice(a + b, pm());
    lemma_mod_twice(a - b, pm());
    lemma_mod_twice(a * b, pm());
}

/// A residue congruent to `x` is the reduction of `x`.
pub proof fn lemma_cong_residue(v: int, x: int)
    requires
        0 <= v < pm(),
        cong(v, x),
    ensures
        v == x % pm(),
{
    lemma_residue(v);
}

/// `c * (1 - x) == c - c * x` in the field.
pub proof fn lemma_fmul_one_minus(c: int, x: int)
    ensures
        fmul(c, fsub(1, x)) == fsub(c, fmul(c, x)),
{
    lemma_modulus_large();
    lemma_cong_ops(c, c, 1, 1);
    lemma_cong_ops(1, 1, x, x);
    lemma_cong_ops(c, c, x, x);
    lemma_cong_ops(c, c, fsub(1, x), 1 - x);
    lemma_cong_ops(c, c, fmul(c, x), c * x);
    assert(c * (1 - x) == c - c * x) by (nonlinear_arith);
    lemma_fops_range(c, fsub(1, x));
    lemma_fops_range(c, fmul(c, x));
    lemma_cong_residue(fmul(c, fsub(1, x)), c - c * x);
    lemma_cong_residue(fsub(c, fmul(c, x)), c - c * x);
}

/// Products of four factors may be regrouped: `(a b)(c d) == (a c)(b d)`.
pub proof fn lemma_fmul_swap4(a: int, b: int, c: int, d: int)
    ensures
        fmul(fmul(a, b), fmul(c, d)) == fmul(fmul(a, c), fmul(b, d)),
{
    lemma_modulus_large();
    lemma_cong_ops(a, a, b, b);
    lemma_cong_ops(c, c, d, d);
    lemma_cong_ops(a, a, c, c);
    lemma_cong_ops(b, b, d, d);
    lemma_cong_ops(fmul(a, b), a * b, fmul(c, d), c * d);
    lemma_cong_ops(fmul(a, c), a * c, fmul(b, d), b * d);
    assert((a * b) * (c * d) == (a * c) * (b * d)) by (nonlinear_arith);
    lemma_fops_range(fmul(a, b), fmul(c, d));
    lemma_fops_range(fmul(a, c), fmul(b, d));
    lemma_cong_residue(fmul(fmul(a, b), fmul(c, d)), (a * b) * (c * d));
    lemma_cong_residue(fmul(fmul(a, c), fmul(b, d)), (a * b) * (c * d));
}

/// `1 - x` vanishes only at `x == 1` among residues.
pub proof fn lemma_one_minus_nonzero(x: int)
    requires
        0 <= x < pm(),
        x != 1,
    ensures
        fsub(1, x) != 0,
{
    lemma_modulus_large();
    if x == 0 {
        lemma_residue(1);
    } else {
        lemma_mod_add_multiples_vanish(1 - x, pm());
        lemma_residue(pm() + 1 - x);
    }
}

// ---------------------------------------------------------------------------
// Trusted arithmetic: each wrapper hands its operands to `ark_bn254::Fr`.
// The limbs of every `Fr` are canonical (type invariant), so the conversions
// `from_bigint(..).unwrap()` never fail.

/// `ark_bn254::Fr` addition (`Add::add`): the sum of the operands modulo the field order.
#[verifier::external_body]
fn ark_add(a: &Fr, b: &Fr) -> (r: Fr)
    ensures
        r@ == fadd(a@ as int, b@ as int),
{
    let x = ark_bn254::Fr::from_bigint(BigInt::new([a.l0, a.l1, a.l2, a.l3])).unwrap();
    let y = ark_bn254::Fr::from_bigint(BigInt::new([b.l0, b.l1, b.l2, b.l3])).unwrap();
    let z = (x + y).into_bigint().0;
    Fr { l0: z[0], l1: z[1], l2: z[2], l3: z[3] }
}

/// `ark_bn254::Fr` subtraction (`Sub::sub`): the difference modulo the field order.
#[verifier::external_body]
fn ark_sub(a: &Fr, b: &Fr) -> (r: Fr)
    ensures
        r@ == fsub(a@ as int, b@ as int),
{
    let x = ark_bn254::Fr::from_bigint(BigInt::new([a.l0, a.l1, a.l2, a.l3])).unwrap();
    let y = ark_bn254::Fr::from_bigint(BigInt::new([b.l0, b.l1, b.l2, b.l3])).unwrap();
    let z = (x - y).into_bigint().0;
    Fr { l0: z[0], l1: z[1], l2: z[2], l3: z[3] }
}

/// `ark_bn254::Fr` multiplication (`Mul::mul`): the product modulo the field order.
#[verifier::external_body]
fn ark_mul(a: &Fr, b: &Fr) -> (r: Fr)
    ensures
        r@ == fmul(a@ as int, b@ as int),
{
    let x = ark_bn254::Fr::from_bigint(BigInt::new([a.l0, a.l1, a.l2, a.l3])).unwrap();
    let y = ark_bn254::Fr::from_bigint(BigInt::new([b.l0, b.l1, b.l2, b.l3])).unwrap();
    let z = (x * y).into_bigint().0;
    Fr { l0: z[0], l1: z[1], l2: z[2], l3: z[3] }
}

/// `ark_bn254::Fr` division (`Div::div`, which panics on a zero divisor): the quotient `q`
/// with `q * b == a` modulo the field order.
#[verifier::external_body]
fn ark_div(a: &Fr, b: &Fr) -> (r: Fr)
    requires
        b@ != 0,
    ensures
        fmul(r@ as int, b@ as int) == a@,
{
    let x = ark_bn254::Fr::from_bigint(BigInt::new([a.l0, a.l1, a.l2, a.l3])).unwrap();
    let y = ark_bn254::Fr::from_bigint(BigInt::new([b.l0, b.l1, b.l2, b.l3])).unwrap();
    let z = (x / y).into_bigint().0;
    Fr { l0: z[0], l1: z[1], l2: z[2], l3: z[3] }
}

/// `ark_bn254::Fr::inverse` (`Field::inverse`): `None` exactly for zero, otherwise the
/// element whose product with the operand is one modulo the field order.
#[verifier::external_body]
fn ark_inverse(a: &Fr) -> (r: Option<Fr>)
    ensures
        r is None <==> a@ == 0,
        r matches Some(x) ==> fmul(a@ as int, x@ as int) == 1,
{
    let x = ark_bn254::Fr::from_bigint(BigInt::new([a.l0, a.l1, a.l2, a.l3])).unwrap();
    match x.inverse() {
        Some(y) => {
            let z = y.into_bigint().0;
            Some(Fr { l0: z[0], l1: z[1], l2: z[2], l3: z[3] })
        },
        None => None,
    }
}

} // verus!
