//! Variable bookkeeping for opening the trusted-advice polynomial inside the main
//! commitment matrix: how many variables it has, and in which rounds of the main
//! opening sumcheck each of them is bound.
use crate::dory_globals::{lemma_context_guard_round_trip, DoryContext, DoryGlobals};
use crate::math::{ceil_log2, lemma_ceil_log2_usize};
use vstd::prelude::*;

verus! {

/// `ark_std::log2`: `0` for zero, otherwise the ceiling of the base-2 logarithm (the
/// exponent for a power of two, the bit length otherwise).
#[verifier::external_body]
fn log2(x: usize) -> (r: u32)
    ensures
        r == ceil_log2(x as nat),
{
    ark_std::log2(x)
}

/// The variable order of the main matrix after both of its segments are reversed: the
/// first `log_t` positions hold `log_t - 1, .., 0`, the rest `n - 1, .., log_t`.
pub open spec fn reversed_segments(n: nat, log_t: nat, i: nat) -> nat {
    if i < log_t {
        (log_t - 1 - i) as nat
    } else {
        (n - 1 + log_t - i) as nat
    }
}

/// The binding rounds of the advice variables: the `tr` row positions before position
/// `rows` and the last `tc` positions of the main matrix (`rows` row and `cols` column
/// variables), read through [`reversed_segments`].
pub open spec fn binding_rounds(rows: nat, cols: nat, log_t: nat, tr: nat, tc: nat) -> Seq<nat> {
    Seq::new(
        tr + tc,
        |t: int|
            if t < tr {
                reversed_segments(rows + cols, log_t, (rows - tr + t) as nat)
            } else {
                reversed_segments(rows + cols, log_t, (rows + cols - tc + (t - tr)) as nat)
            },
    )
}

/// Reverses `v[lo..hi]` in place.
fn reverse_range(v: &mut Vec<usize>, lo: usize, hi: usize)
    requires
        lo <= hi <= old(v).len(),
    ensures
        final(v).len() == old(v).len(),
        forall|i: int| 0 <= i < lo ==> #[trigger] final(v)@[i] == old(v)@[i],
        forall|i: int| hi <= i < old(v).len() ==> #[trigger] final(v)@[i] == old(v)@[i],
        forall|i: int| lo <= i < hi ==> #[trigger] final(v)@[i] == old(v)@[lo + hi - 1 - i],
{
    let ghost orig = v@;
    let mut a = lo;
    let mut b = hi;
    while b - a > 1
        invariant
            lo <= a <= b <= hi,
            hi <= v.len(),
            v.len() == orig.len(),
            a - lo == hi - b,
            forall|i: int| 0 <= i < lo ==> #[trigger] v@[i] == orig[i],
            forall|i: int| hi <= i < orig.len() ==> #[trigger] v@[i] == orig[i],
            forall|i: int| a <= i < b ==> #[trigger] v@[i] == orig[i],
            forall|i: int| lo <= i < a ==> #[trigger] v@[i] == orig[lo + hi - 1 - i],
            forall|i: int| b <= i < hi ==> #[trigger] v@[i] == orig[lo + hi - 1 - i],
        decreases b - a,
    {
        let x = v[a];
        let y = v[b - 1];
        v.set(a, y);
        v.set(b - 1, x);
        a = a + 1;
        b = b - 1;
    }
}

/// The opening of the trusted-advice polynomial.
pub struct AdvicePolynomialProverOpening;

impl AdvicePolynomialProverOpening {
    /// Row plus column variables of the trusted-advice matrix; the globals are left as
    /// they were.
    pub fn number_of_variables(globals: &mut DoryGlobals) -> (r: usize)
        requires
            old(globals).dims(DoryContext::TrustedAdvice).max_num_rows is Some,
            old(globals).dims(DoryContext::TrustedAdvice).num_columns is Some,
        ensures
            r == ceil_log2(old(globals).dims(DoryContext::TrustedAdvice).num_columns.unwrap() as nat)
                + ceil_log2(
                old(globals).dims(DoryContext::TrustedAdvice).max_num_rows.unwrap() as nat,
            ),
            *final(globals) == *old(globals),
    {
        let ghost g0 = *globals;
        let ctx = globals.with_context(DoryContext::TrustedAdvice);
        let ghost g1 = *globals;
        let trusted_advice_rows_len = log2(globals.get_max_num_rows()) as usize;
        let trusted_advice_columns_len = log2(globals.get_num_columns()) as usize;
        proof {
            lemma_ceil_log2_usize(globals.current_dims().max_num_rows.unwrap());
            lemma_ceil_log2_usize(globals.current_dims().num_columns.unwrap());
        }
        let num_vars = trusted_advice_columns_len + trusted_advice_rows_len;
        globals.restore_context(ctx);
        proof {
            lemma_context_guard_round_trip(g0, g1, *globals, ctx);
        }
        num_vars
    }

    /// For each advice variable, the round of the main opening in which it is bound
    /// (see [`binding_rounds`]); the globals are left as they were.
    #[allow(non_snake_case)]
    pub fn calculate_binding_rounds(globals: &mut DoryGlobals) -> (r: Vec<usize>)
        requires
            old(globals).dims(DoryContext::Main).max_num_rows is Some,
            old(globals).dims(DoryContext::Main).num_columns is Some,
            old(globals).dims(DoryContext::Main).t is Some,
            old(globals).dims(DoryContext::TrustedAdvice).max_num_rows is Some,
            old(globals).dims(DoryContext::TrustedAdvice).num_columns is Some,
            ({
                let m = old(globals).dims(DoryContext::Main);
                let a = old(globals).dims(DoryContext::TrustedAdvice);
                let rows = ceil_log2(m.max_num_rows.unwrap() as nat);
                let cols = ceil_log2(m.num_columns.unwrap() as nat);
                &&& ceil_log2(m.t.unwrap() as nat) <= rows + cols
                &&& ceil_log2(a.max_num_rows.unwrap() as nat) <= rows
                &&& ceil_log2(a.num_columns.unwrap() as nat) <= rows + cols
            }),
        ensures
            ({
                let m = old(globals).dims(DoryContext::Main);
                let a = old(globals).dims(DoryContext::TrustedAdvice);
                let rows = ceil_log2(m.max_num_rows.unwrap() as nat);
                let cols = ceil_log2(m.num_columns.unwrap() as nat);
                r@.map_values(|x: usize| x as nat) == binding_rounds(
                    rows,
                    cols,
                    (rows + cols - ceil_log2(m.t.unwrap() as nat)) as nat,
                    ceil_log2(a.max_num_rows.unwrap() as nat),
                    ceil_log2(a.num_columns.unwrap() as nat),
                )
            }),
            *final(globals) == *old(globals),
    {
        let ghost g0 = *globals;
        let ctx = globals.with_context(DoryContext::Main);
        let ghost g1 = *globals;
        let main_rows_len = log2(globals.get_max_num_rows()) as usize;
        let main_columns_len = log2(globals.get_num_columns()) as usize;
        proof {
            lemma_ceil_log2_usize(globals.current_dims().max_num_rows.unwrap());
            lemma_ceil_log2_usize(globals.current_dims().num_columns.unwrap());
        }
        let log_T = main_rows_len + main_columns_len - log2(globals.get_T()) as usize;
        globals.restore_context(ctx);
        proof {
            lemma_context_guard_round_trip(g0, g1, *globals, ctx);
        }
        let ghost h0 = *globals;
        let ctx = globals.with_context(DoryContext::TrustedAdvice);
        let ghost h1 = *globals;
        let trusted_advice_rows_len = log2(globals.get_max_num_rows()) as usize;
        let trusted_advice_columns_len = log2(globals.get_num_columns()) as usize;
        globals.restore_context(ctx);
        proof {
            lemma_context_guard_round_trip(h0, h1, *globals, ctx);
        }
        let n = main_rows_len + main_columns_len;
        let mut indexes: Vec<usize> = Vec::new();
        let mut i: usize = 0;
        while i < n
            invariant
                i <= n,
                indexes.len() == i,
                forall|k: int| 0 <= k < i ==> #[trigger] indexes@[k] == k,
            decreases n - i,
        {
            indexes.push(i);
            i = i + 1;
        }
        let ghost ordered = indexes@;
        reverse_range(&mut indexes, 0, log_T);
        let ghost first = indexes@;
        reverse_range(&mut indexes, log_T, n);
        proof {
            assert forall|k: int| 0 <= k < n implies #[trigger] indexes@[k] == reversed_segments(
                n as nat,
                log_T as nat,
                k as nat,
            ) by {
                if k < log_T {
                    assert(first[k] == ordered[log_T - 1 - k]);
                } else {
                    assert(first[log_T + n - 1 - k] == ordered[log_T + n - 1 - k]);
                }
            }
        }
        let mut out: Vec<usize> = Vec::new();
        let mut k = main_rows_len - trusted_advice_rows_len;
        while k < main_rows_len
            invariant
                main_rows_len - trusted_advice_rows_len <= k <= main_rows_len <= n,
                indexes.len() == n,
                out.len() == k - (main_rows_len - trusted_advice_rows_len),
                forall|t: int|
                    0 <= t < out.len() ==> #[trigger] out@[t] == indexes@[(main_rows_len
                        - trusted_advice_rows_len) + t],
            decreases main_rows_len - k,
        {
            out.push(indexes[k]);
            k = k + 1;
        }
        let mut k = n - trusted_advice_columns_len;
        while k < n
            invariant
                n - trusted_advice_columns_len <= k <= n,
                indexes.len() == n,
                out.len() == trusted_advice_rows_len + (k - (n - trusted_advice_columns_len)),
                forall|t: int|
                    0 <= t < trusted_advice_rows_len ==> #[trigger] out@[t] == indexes@[(
                    main_rows_len - trusted_advice_rows_len) + t],
                forall|t: int|
                    trusted_advice_rows_len <= t < out.len() ==> #[trigger] out@[t] == indexes@[(n
                        - trusted_advice_columns_len) + (t - trusted_advice_rows_len)],
            decreases n - k,
        {
            out.push(indexes[k]);
            k = k + 1;
        }
        proof {
            let rows = main_rows_len as nat;
            let cols = main_columns_len as nat;
            assert(out@.map_values(|x: usize| x as nat) =~= binding_rounds(
                rows,
                cols,
                log_T as nat,
                trusted_advice_rows_len as nat,
                trusted_advice_columns_len as nat,
            ));
        }
        out
    }
}

} // verus!
