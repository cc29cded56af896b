//! Integer helpers on `usize`: ceiling logarithms, powers of two, rounding.
use vstd::arithmetic::power2::*;
use vstd::bits::*;
use vstd::prelude::*;

verus! {

/// The smallest `k` with `n <= 2^k` (and `0` for `n <= 1`).
pub open spec fn ceil_log2(n: nat) -> nat
    decreases n,
{
    if n <= 1 {
        0
    } else {
        1 + ceil_log2(((n + 1) / 2) as nat)
    }
}

/// The word size of the machine: `usize` holds exactly the values below `2^usize::BITS`.
pub proof fn lemma_usize_bits()
    ensures
        usize::BITS == 32 || usize::BITS == 64,
        usize::MAX + 1 == pow2(usize::BITS as nat),
{
    lemma2_to64();
}

/// `ceil_log2(n)` is characterised by `2^(k-1) < n <= 2^k`.
pub proof fn lemma_ceil_log2_bounds(n: nat)
    requires
        n >= 1,
    ensures
        n <= pow2(ceil_log2(n)),
        ceil_log2(n) > 0 ==> pow2((ceil_log2(n) - 1) as nat) < n,
    decreases n,
{
    lemma2_to64();
    if n > 1 {
        let m = ((n + 1) / 2) as nat;
        assert(2 * m <= n + 1 && n <= 2 * m);
        lemma_ceil_log2_bounds(m);
        let c = ceil_log2(m);
        assert(ceil_log2(n) == c + 1);
        lemma_pow2_unfold(c + 1);
        assert(pow2(c + 1) == 2 * pow2(c));
        if c > 0 {
            lemma_pow2_unfold(c);
        } else {
            assert(m == 1);
        }
    }
}

/// Any `k` with `2^(k-1) < n <= 2^k` is `ceil_log2(n)`.
pub proof fn lemma_ceil_log2_unique(n: nat, k: nat)
    requires
        n >= 1,
        n <= pow2(k),
        k > 0 ==> pow2((k - 1) as nat) < n,
    ensures
        ceil_log2(n) == k,
    decreases k,
{
    lemma2_to64();
    if k > 0 {
        lemma_pow2_unfold(k);
        let m = ((n + 1) / 2) as nat;
        assert(2 * m <= n + 1 && n <= 2 * m);
        if k == 1 {
            assert(n == 2);
            assert(m == 1);
        } else {
            lemma_pow2_unfold((k - 1) as nat);
            lemma_pow2_strictly_increases(0, (k - 1) as nat);
            assert(n > 1);
            assert(ceil_log2(n) == 1 + ceil_log2(m));
            lemma_ceil_log2_unique(m, (k - 1) as nat);
        }
    }
}

/// `ceil_log2(2^k) == k`.
pub proof fn lemma_ceil_log2_pow2(k: nat)
    ensures
        ceil_log2(pow2(k)) == k,
{
    lemma_pow2_pos(k);
    if k > 0 {
        lemma_pow2_strictly_increases((k - 1) as nat, k);
    }
    lemma_ceil_log2_unique(pow2(k), k);
}

/// The ceiling logarithm of a `usize` is at most the word size.
pub proof fn lemma_ceil_log2_usize(x: usize)
    ensures
        ceil_log2(x as nat) <= usize::BITS,
{
    lemma_usize_bits();
    if x >= 1 {
        lemma_ceil_log2_bounds(x as nat);
        let c = ceil_log2(x as nat);
        if c > usize::BITS {
            if c - 1 > usize::BITS {
                lemma_pow2_strictly_increases(usize::BITS as nat, (c - 1) as nat);
            }
            assert(false);
        }
    }
}

/// `2^k` as a `usize`; the shift must stay inside the word.
pub fn pow2_usize(k: usize) -> (r: usize)
    requires
        k < usize::BITS,
    ensures
        r == pow2(k as nat),
{
    proof {
        lemma_usize_pow2_no_overflow(k as nat);
        lemma_usize_shl_is_mul(1, k);
    }
    1usize << k
}

/// Ceiling base-2 logarithm of a non-zero `usize`: exact for powers of two,
/// the bit length otherwise.
pub fn log_2(n: usize) -> (r: usize)
    requires
        n != 0,
    ensures
        r == ceil_log2(n as nat),
        r <= usize::BITS,
{
    proof {
        lemma_usize_bits();
        lemma2_to64();
    }
    let mut k: usize = 0;
    let mut p: u128 = 1;
    while p < n as u128
        invariant
            n >= 1,
            p == pow2(k as nat),
            k <= usize::BITS,
            k > 0 ==> pow2((k - 1) as nat) < n,
            p <= 2 * (n as nat),
            p >= 1,
            usize::MAX + 1 == pow2(usize::BITS as nat),
            usize::BITS <= 64,
            pow2(64) == 0x1_0000_0000_0000_0000,
        decreases 2 * (n as nat) - p,
    {
        proof {
            lemma_pow2_unfold((k + 1) as nat);
            if k == usize::BITS {
                assert(false);
            }
        }
        p = p * 2;
        k = k + 1;
    }
    proof {
        lemma_ceil_log2_unique(n as nat, k as nat);
    }
    k
}

/// `usize::next_power_of_two`: the smallest power of two that is at least `n`
/// (`1` for `n == 0`).
pub open spec fn next_pow2(n: nat) -> nat {
    pow2(ceil_log2(n))
}

/// The smallest power of two `>= n`; `n` must not exceed `2^63`.
pub fn next_power_of_two(n: usize) -> (r: usize)
    requires
        n <= usize::MAX / 2 + 1,
    ensures
        r == next_pow2(n as nat),
        r >= 1,
        r >= n,
{
    if n <= 1 {
        proof {
            lemma2_to64();
        }
        1
    } else {
        let k = log_2(n);
        proof {
            lemma_ceil_log2_bounds(n as nat);
            lemma_usize_bits();
            lemma2_to64();
            if k >= usize::BITS {
                lemma_pow2_unfold(usize::BITS as nat);
                if k > usize::BITS {
                    lemma_pow2_strictly_increases((usize::BITS - 1) as nat, (k - 1) as nat);
                }
                assert(false);
            }
        }
        pow2_usize(k)
    }
}

/// `usize::div_ceil`: `a / b` rounded up.
pub fn div_ceil(a: usize, b: usize) -> (r: usize)
    requires
        b > 0,
    ensures
        r == (a as int + b - 1) / (b as int),
{
    let q = a / b;
    if a % b == 0 {
        proof {
            vstd::arithmetic::div_mod::lemma_fundamental_div_mod(a as int, b as int);
            assert(a as int + b - 1 == q * b + (b - 1)) by (nonlinear_arith)
                requires a as int == b * q + (a % b), a % b == 0;
            vstd::arithmetic::div_mod::lemma_fundamental_div_mod_converse(
                a as int + b - 1, b as int, q as int, b - 1);
        }
        q
    } else {
        proof {
            vstd::arithmetic::div_mod::lemma_fundamental_div_mod(a as int, b as int);
            assert(a as int + b - 1 == (q + 1) * b + ((a % b) as int - 1)) by (nonlinear_arith)
                requires a as int == b * q + (a % b);
            vstd::arithmetic::div_mod::lemma_fundamental_div_mod_converse(
                a as int + b - 1, b as int, q + 1, (a % b) as int - 1);
            assert(q * b <= a) by (nonlinear_arith)
                requires a as int == b * q + (a % b), a % b >= 0;
            assert(q < a || b == 1) by (nonlinear_arith)
                requires q * b <= a, b >= 1, a % b > 0, a as int == b * q + (a % b);
        }
        q + 1
    }
}

/// Number of trailing one bits of `x`.
pub open spec fn trailing_ones(x: nat) -> nat
    decreases x,
{
    if x % 2 == 1 {
        1 + trailing_ones(x / 2)
    } else {
        0
    }
}

/// `usize::trailing_ones`.
pub fn count_trailing_ones(x: usize) -> (r: usize)
    ensures
        r == trailing_ones(x as nat),
        r <= usize::BITS,
{
    proof {
        lemma_usize_bits();
        lemma2_to64();
    }
    let mut y = x;
    let mut c: usize = 0;
    while y % 2 == 1
        invariant
            trailing_ones(x as nat) == c + trailing_ones(y as nat),
            y as nat * pow2(c as nat) <= x as nat,
            c <= usize::BITS,
            usize::MAX + 1 == pow2(usize::BITS as nat),
            pow2(0) == 1,
        decreases y,
    {
        proof {
            lemma_pow2_unfold((c + 1) as nat);
            if c == usize::BITS {
                assert(y >= 1);
                assert(pow2(c as nat) <= x as nat) by (nonlinear_arith)
                    requires y as nat * pow2(c as nat) <= x as nat, y >= 1;
                assert(false);
            }
            assert((y / 2) as nat * pow2((c + 1) as nat) <= x as nat) by (nonlinear_arith)
                requires
                    y as nat * pow2(c as nat) <= x as nat,
                    pow2((c + 1) as nat) == 2 * pow2(c as nat),
            ;
        }
        y = y / 2;
        c = c + 1;
    }
    c
}

} // verus!
