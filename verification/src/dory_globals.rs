//! Global Dory parameters: per-context matrix dimensions, the active context and
//! the coefficient layout.
//!
//! The parameters live in an explicit [`DoryGlobals`] value. Each dimension is
//! write-once: setting an already-set dimension leaves it unchanged.
use crate::math::{ceil_log2, div_ceil, lemma_ceil_log2_bounds, lemma_ceil_log2_pow2, lemma_usize_bits, log_2, next_power_of_two, pow2_usize};
use vstd::arithmetic::power2::*;
use vstd::prelude::*;

verus! {

/// How the coefficients of a one-hot polynomial (address `k`, cycle `t`) are laid
/// out in the Dory matrix.
#[derive(Clone, Copy, Debug, PartialEq, Eq, Structural)]
pub enum DoryLayout {
    /// `index = address * T + cycle`: each row holds the cycles of one address.
    CycleMajor,
    /// `index = cycle * K + address`: each row holds the addresses of one cycle.
    AddressMajor,
}

/// Coefficient index of `(address, cycle)` under a layout.
pub open spec fn spec_address_cycle_to_index(
    layout: DoryLayout,
    address: nat,
    cycle: nat,
    k: nat,
    t: nat,
) -> nat {
    match layout {
        DoryLayout::CycleMajor => address * t + cycle,
        DoryLayout::AddressMajor => cycle * k + address,
    }
}

/// `(address, cycle)` of a coefficient index under a layout.
pub open spec fn spec_index_to_address_cycle(layout: DoryLayout, index: nat, k: nat, t: nat) -> (
    nat,
    nat,
) {
    match layout {
        DoryLayout::CycleMajor => (index / t, index % t),
        DoryLayout::AddressMajor => (index % k, index / k),
    }
}

impl Default for DoryLayout {
    fn default() -> (r: DoryLayout)
        ensures
            r == DoryLayout::CycleMajor,
    {
        DoryLayout::CycleMajor
    }
}

impl DoryLayout {
    /// Converts `(address, cycle)` to a coefficient index.
    pub fn address_cycle_to_index(&self, address: usize, cycle: usize, K: usize, T: usize) -> (r:
        usize)
        requires
            spec_address_cycle_to_index(*self, address as nat, cycle as nat, K as nat, T as nat)
                <= usize::MAX,
        ensures
            r == spec_address_cycle_to_index(*self, address as nat, cycle as nat, K as nat, T as nat),
    {
        match self {
            DoryLayout::CycleMajor => {
                proof {
                    assert(address * T <= address * T + cycle);
                }
                address * T + cycle
            },
            DoryLayout::AddressMajor => {
                proof {
                    assert(cycle * K <= cycle * K + address);
                }
                cycle * K + address
            },
        }
    }

    /// Converts a coefficient index to `(address, cycle)`.
    pub fn index_to_address_cycle(&self, index: usize, K: usize, T: usize) -> (r: (usize, usize))
        requires
            *self == DoryLayout::CycleMajor ==> T > 0,
            *self == DoryLayout::AddressMajor ==> K > 0,
        ensures
            (r.0 as nat, r.1 as nat) == spec_index_to_address_cycle(
                *self,
                index as nat,
                K as nat,
                T as nat,
            ),
    {
        match self {
            DoryLayout::CycleMajor => {
                let address = index / T;
                let cycle = index % T;
                (address, cycle)
            },
            DoryLayout::AddressMajor => {
                let cycle = index / K;
                let address = index % K;
                (address, cycle)
            },
        }
    }

    /// The layout encoded by a byte (`0` cycle-major, `1` address-major).
    pub fn from_u8(value: u8) -> (r: DoryLayout)
        requires
            value <= 1,
        ensures
            r == layout_of_byte(value),
    {
        if value == 0 {
            DoryLayout::CycleMajor
        } else {
            DoryLayout::AddressMajor
        }
    }

    /// The byte encoding of a layout.
    pub fn to_u8(self) -> (r: u8)
        ensures
            r == byte_of_layout(self),
    {
        match self {
            DoryLayout::CycleMajor => 0,
            DoryLayout::AddressMajor => 1,
        }
    }
}

/// Byte encoding of a layout.
pub open spec fn byte_of_layout(l: DoryLayout) -> u8 {
    match l {
        DoryLayout::CycleMajor => 0,
        DoryLayout::AddressMajor => 1,
    }
}

/// Layout encoded by a byte `<= 1`.
pub open spec fn layout_of_byte(b: u8) -> DoryLayout {
    if b == 0 {
        DoryLayout::CycleMajor
    } else {
        DoryLayout::AddressMajor
    }
}

/// Inside a `K x T` grid, converting `(address, cycle)` to an index and back is the
/// identity, under either layout.
pub proof fn lemma_address_cycle_round_trip(
    layout: DoryLayout,
    address: nat,
    cycle: nat,
    k: nat,
    t: nat,
)
    requires
        address < k,
        cycle < t,
    ensures
        spec_index_to_address_cycle(
            layout,
            spec_address_cycle_to_index(layout, address, cycle, k, t),
            k,
            t,
        ) == (address, cycle),
        spec_address_cycle_to_index(layout, address, cycle, k, t) < k * t,
{
    match layout {
        DoryLayout::CycleMajor => {
            vstd::arithmetic::div_mod::lemma_fundamental_div_mod_converse(
                (address * t + cycle) as int,
                t as int,
                address as int,
                cycle as int,
            );
            assert(address * t + cycle < k * t) by (nonlinear_arith)
                requires
                    address < k,
                    cycle < t,
            ;
        },
        DoryLayout::AddressMajor => {
            vstd::arithmetic::div_mod::lemma_fundamental_div_mod_converse(
                (cycle * k + address) as int,
                k as int,
                cycle as int,
                address as int,
            );
            assert(cycle * k + address < k * t) by (nonlinear_arith)
                requires
                    address < k,
                    cycle < t,
            ;
        },
    }
}

/// Every index of a `K x T` grid is the index of the `(address, cycle)` it maps to.
pub proof fn lemma_index_round_trip(layout: DoryLayout, index: nat, k: nat, t: nat)
    requires
        index < k * t,
    ensures
        ({
            let (a, c) = spec_index_to_address_cycle(layout, index, k, t);
            a < k && c < t && spec_address_cycle_to_index(layout, a, c, k, t) == index
        }),
{
    assert(k > 0 && t > 0) by (nonlinear_arith)
        requires
            index < k * t,
    ;
    match layout {
        DoryLayout::CycleMajor => {
            vstd::arithmetic::div_mod::lemma_fundamental_div_mod(index as int, t as int);
            vstd::arithmetic::mul::lemma_mul_is_commutative(k as int, t as int);
            vstd::arithmetic::div_mod::lemma_multiply_divide_lt(index as int, t as int, k as int);
            vstd::arithmetic::mul::lemma_mul_is_commutative((index / t) as int, t as int);
        },
        DoryLayout::AddressMajor => {
            vstd::arithmetic::div_mod::lemma_fundamental_div_mod(index as int, k as int);
            vstd::arithmetic::div_mod::lemma_multiply_divide_lt(index as int, k as int, t as int);
            vstd::arithmetic::mul::lemma_mul_is_commutative((index / k) as int, k as int);
        },
    }
}

/// The Dory commitment context whose parameters are in use.
#[derive(Clone, Copy, Debug, PartialEq, Eq, Structural)]
pub enum DoryContext {
    Main,
    TrustedAdvice,
    UntrustedAdvice,
    Bytecode,
    ProgramImage,
}

/// Byte encoding of a context (`Main` is `0`, ..., `ProgramImage` is `4`).
pub open spec fn byte_of_context(c: DoryContext) -> u8 {
    match c {
        DoryContext::Main => 0,
        DoryContext::TrustedAdvice => 1,
        DoryContext::UntrustedAdvice => 2,
        DoryContext::Bytecode => 3,
        DoryContext::ProgramImage => 4,
    }
}

impl DoryContext {
    /// The context encoded by a byte `<= 4`.
    pub fn from_u8(value: u8) -> (r: DoryContext)
        requires
            value <= 4,
        ensures
            byte_of_context(r) == value,
    {
        match value {
            0 => DoryContext::Main,
            1 => DoryContext::TrustedAdvice,
            2 => DoryContext::UntrustedAdvice,
            3 => DoryContext::Bytecode,
            _ => DoryContext::ProgramImage,
        }
    }

    /// The byte encoding of a context.
    pub fn to_u8(self) -> (r: u8)
        ensures
            r == byte_of_context(self),
    {
        match self {
            DoryContext::Main => 0,
            DoryContext::TrustedAdvice => 1,
            DoryContext::UntrustedAdvice => 2,
            DoryContext::Bytecode => 3,
            DoryContext::ProgramImage => 4,
        }
    }
}

/// The write-once dimensions of one context.
#[derive(Clone, Copy, Debug, PartialEq, Eq)]
pub struct ContextDimensions {
    pub t: Option<usize>,
    pub max_num_rows: Option<usize>,
    pub num_columns: Option<usize>,
}

/// A write-once cell after an attempt to store `v`: an existing value wins.
pub open spec fn set_once(o: Option<usize>, v: usize) -> Option<usize> {
    if o is Some {
        o
    } else {
        Some(v)
    }
}

/// `sigma = ceil(total_vars / 2)`, the number of column variables of a balanced split.
pub open spec fn balanced_sigma(total_vars: nat) -> nat {
    (total_vars + 1) / 2
}

/// `nu = total_vars - sigma`, the number of row variables of a balanced split.
pub open spec fn balanced_nu(total_vars: nat) -> nat {
    (total_vars - balanced_sigma(total_vars)) as nat
}

/// `n` is a power of two.
pub open spec fn is_power_of_two(n: nat) -> bool {
    exists|k: nat| pow2(k) == n
}

/// `a - b` clamped at zero.
pub open spec fn saturating_diff(a: nat, b: nat) -> nat {
    if a > b {
        (a - b) as nat
    } else {
        0
    }
}

/// Records the context that was active when another context was entered;
/// [`DoryGlobals::restore_context`] reinstates it.
pub struct DoryContextGuard {
    previous_context: DoryContext,
}

impl DoryContextGuard {
    /// The context to reinstate.
    pub closed spec fn previous(&self) -> DoryContext {
        self.previous_context
    }
}

/// The Dory parameters of all contexts together with the active context and layout.
pub struct DoryGlobals {
    main: ContextDimensions,
    trusted_advice: ContextDimensions,
    untrusted_advice: ContextDimensions,
    bytecode: ContextDimensions,
    program_image: ContextDimensions,
    main_k_chunk: Option<usize>,
    main_log_embedding: usize,
    current_context: DoryContext,
    current_layout: DoryLayout,
}

/// Dimensions with nothing set.
pub open spec fn no_dims() -> ContextDimensions {
    ContextDimensions { t: None, max_num_rows: None, num_columns: None }
}

impl DoryGlobals {
    /// The dimensions recorded for a context.
    pub closed spec fn dims(&self, c: DoryContext) -> ContextDimensions {
        match c {
            DoryContext::Main => self.main,
            DoryContext::TrustedAdvice => self.trusted_advice,
            DoryContext::UntrustedAdvice => self.untrusted_advice,
            DoryContext::Bytecode => self.bytecode,
            DoryContext::ProgramImage => self.program_image,
        }
    }

    /// The address-space size `K` of the main context, once set.
    pub closed spec fn spec_main_k(&self) -> Option<usize> {
        self.main_k_chunk
    }

    /// The recorded main log-embedding (`0` when none was recorded).
    pub closed spec fn spec_main_log_embedding(&self) -> usize {
        self.main_log_embedding
    }

    /// The active context.
    pub closed spec fn spec_context(&self) -> DoryContext {
        self.current_context
    }

    /// The active layout.
    pub closed spec fn spec_layout(&self) -> DoryLayout {
        self.current_layout
    }

    /// Dimensions of the active context.
    pub open spec fn current_dims(&self) -> ContextDimensions {
        self.dims(self.spec_context())
    }

    /// Every recorded row count, column count and main `K` is positive.
    pub open spec fn wf(&self) -> bool {
        &&& forall|c: DoryContext|
            (#[trigger] self.dims(c)).max_num_rows is Some ==> self.dims(c).max_num_rows.unwrap()
                > 0
        &&& forall|c: DoryContext|
            (#[trigger] self.dims(c)).num_columns is Some ==> self.dims(c).num_columns.unwrap()
                > 0
        &&& self.spec_main_k() matches Some(k) ==> k > 0
    }

    /// The state with nothing initialised: main context, cycle-major layout.
    pub open spec fn is_initial(&self) -> bool {
        &&& forall|c: DoryContext| #[trigger] self.dims(c) == no_dims()
        &&& self.spec_main_k() is None
        &&& self.spec_main_log_embedding() == 0
        &&& self.spec_context() == DoryContext::Main
        &&& self.spec_layout() == DoryLayout::CycleMajor
    }

    /// `other` agrees with `self` except possibly on the dimensions of `c`.
    pub open spec fn same_except_dims(&self, other: &DoryGlobals, c: DoryContext) -> bool {
        &&& forall|c2: DoryContext| c2 != c ==> #[trigger] other.dims(c2) == self.dims(c2)
        &&& other.spec_main_k() == self.spec_main_k()
        &&& other.spec_main_log_embedding() == self.spec_main_log_embedding()
        &&& other.spec_context() == self.spec_context()
        &&& other.spec_layout() == self.spec_layout()
    }

    /// `other` has the same dimensions and main `K` as `self`.
    pub open spec fn same_dims(&self, other: &DoryGlobals) -> bool {
        &&& forall|c: DoryContext| #[trigger] other.dims(c) == self.dims(c)
        &&& other.spec_main_k() == self.spec_main_k()
    }

    /// Globals with nothing initialised.
    pub fn new() -> (r: DoryGlobals)
        ensures
            r.is_initial(),
            r.wf(),
    {
        let empty = ContextDimensions { t: None, max_num_rows: None, num_columns: None };
        DoryGlobals {
            main: empty,
            trusted_advice: empty,
            untrusted_advice: empty,
            bytecode: empty,
            program_image: empty,
            main_k_chunk: None,
            main_log_embedding: 0,
            current_context: DoryContext::Main,
            current_layout: DoryLayout::CycleMajor,
        }
    }

    /// Resets every parameter to its initial state.
    pub fn reset(&mut self)
        ensures
            final(self).is_initial(),
            final(self).wf(),
    {
        *self = DoryGlobals::new();
    }

    fn get_dims(&self, c: DoryContext) -> (r: ContextDimensions)
        ensures
            r == self.dims(c),
    {
        match c {
            DoryContext::Main => self.main,
            DoryContext::TrustedAdvice => self.trusted_advice,
            DoryContext::UntrustedAdvice => self.untrusted_advice,
            DoryContext::Bytecode => self.bytecode,
            DoryContext::ProgramImage => self.program_image,
        }
    }

    fn put_dims(&mut self, c: DoryContext, d: ContextDimensions)
        ensures
            final(self).dims(c) == d,
            old(self).same_except_dims(&*final(self), c),
    {
        match c {
            DoryContext::Main => {
                self.main = d;
            },
            DoryContext::TrustedAdvice => {
                self.trusted_advice = d;
            },
            DoryContext::UntrustedAdvice => {
                self.untrusted_advice = d;
            },
            DoryContext::Bytecode => {
                self.bytecode = d;
            },
            DoryContext::ProgramImage => {
                self.program_image = d;
            },
        }
    }

    fn set_max_num_rows_for_context(&mut self, max_num_rows: usize, context: DoryContext)
        ensures
            final(self).dims(context) == (ContextDimensions {
                max_num_rows: set_once(old(self).dims(context).max_num_rows, max_num_rows),
                ..old(self).dims(context)
            }),
            old(self).same_except_dims(&*final(self), context),
    {
        let mut d = self.get_dims(context);
        if d.max_num_rows.is_none() {
            d.max_num_rows = Some(max_num_rows);
        }
        self.put_dims(context, d);
    }

    fn set_num_columns_for_context(&mut self, num_columns: usize, context: DoryContext)
        ensures
            final(self).dims(context) == (ContextDimensions {
                num_columns: set_once(old(self).dims(context).num_columns, num_columns),
                ..old(self).dims(context)
            }),
            old(self).same_except_dims(&*final(self), context),
    {
        let mut d = self.get_dims(context);
        if d.num_columns.is_none() {
            d.num_columns = Some(num_columns);
        }
        self.put_dims(context, d);
    }

    fn set_T_for_context(&mut self, t: usize, context: DoryContext)
        ensures
            final(self).dims(context) == (ContextDimensions {
                t: set_once(old(self).dims(context).t, t),
                ..old(self).dims(context)
            }),
            old(self).same_except_dims(&*final(self), context),
    {
        let mut d = self.get_dims(context);
        if d.t.is_none() {
            d.t = Some(t);
        }
        self.put_dims(context, d);
    }

    fn set_main_k(&mut self, k: usize)
        requires
            old(self).spec_main_k() matches Some(e) ==> e == k,
        ensures
            final(self).spec_main_k() == Some(k),
            forall|c: DoryContext| #[trigger] final(self).dims(c) == old(self).dims(c),
            final(self).spec_main_log_embedding() == old(self).spec_main_log_embedding(),
            final(self).spec_context() == old(self).spec_context(),
            final(self).spec_layout() == old(self).spec_layout(),
    {
        if self.main_k_chunk.is_none() {
            self.main_k_chunk = Some(k);
        }
        proof {
            assert forall|c: DoryContext| #[trigger] self.dims(c) == old(self).dims(c) by {}
        }
    }

    /// Main-context column width `2^sigma` for `K = 2^log_k_chunk`, `T = 2^log_t`
    /// under the balanced split.
    pub fn main_num_columns(log_k_chunk: usize, log_t: usize) -> (r: usize)
        requires
            log_k_chunk + log_t <= usize::MAX,
            balanced_sigma((log_k_chunk + log_t) as nat) < usize::BITS,
        ensures
            r == pow2(balanced_sigma((log_k_chunk + log_t) as nat)),
    {
        let (sigma_main, _) = Self::main_sigma_nu(log_k_chunk, log_t);
        pow2_usize(sigma_main)
    }

    /// Initialises the bytecode context with explicit dimensions. A width wider than
    /// the whole matrix gives a single, partially filled row. Dimensions already set
    /// stay as they are.
    pub fn initialize_bytecode_context_with_dimensions(
        &mut self,
        k_chunk: usize,
        bytecode_t: usize,
        num_columns: usize,
    ) -> (r: Option<()>)
        requires
            old(self).wf(),
            is_power_of_two(num_columns as nat),
            k_chunk * bytecode_t <= usize::MAX,
            k_chunk * bytecode_t >= num_columns ==> (k_chunk * bytecode_t) % (num_columns as int)
                == 0,
            ({
                let d = old(self).dims(DoryContext::Bytecode);
                d.num_columns is Some && d.max_num_rows is Some && d.t is Some ==> d
                    == bytecode_dims(k_chunk as nat, bytecode_t as nat, num_columns as nat)
            }),
        ensures
            r == Some(()),
            final(self).wf(),
            old(self).same_except_dims(&*final(self), DoryContext::Bytecode),
            ({
                let d = old(self).dims(DoryContext::Bytecode);
                let n = bytecode_dims(k_chunk as nat, bytecode_t as nat, num_columns as nat);
                final(self).dims(DoryContext::Bytecode) == ContextDimensions {
                    t: set_once(d.t, n.t.unwrap()),
                    max_num_rows: set_once(d.max_num_rows, n.max_num_rows.unwrap()),
                    num_columns: set_once(d.num_columns, n.num_columns.unwrap()),
                }
            }),
    {
        proof {
            let k = choose|k: nat| pow2(k) == num_columns as nat;
            vstd::arithmetic::power2::lemma_pow2_pos(k);
        }
        let total_size = k_chunk * bytecode_t;
        let num_rows = if total_size >= num_columns {
            total_size / num_columns
        } else {
            1
        };
        proof {
            if total_size >= num_columns {
                vstd::arithmetic::div_mod::lemma_div_is_ordered(
                    num_columns as int, total_size as int, num_columns as int);
                vstd::arithmetic::div_mod::lemma_div_by_self(num_columns as int);
            }
        }
        let d = self.get_dims(DoryContext::Bytecode);
        if d.num_columns.is_some() && d.max_num_rows.is_some() && d.t.is_some() {
            return Some(());
        }
        self.set_num_columns_for_context(num_columns, DoryContext::Bytecode);
        self.set_T_for_context(bytecode_t, DoryContext::Bytecode);
        self.set_max_num_rows_for_context(num_rows, DoryContext::Bytecode);
        proof {
            lemma_wf_after_dims_update(*old(self), *self, DoryContext::Bytecode);
        }
        Some(())
    }

    /// Balanced split of `total_vars` into `(sigma, nu)`: `2^nu` rows by `2^sigma` columns,
    /// `sigma = ceil(total_vars / 2)`.
    pub fn balanced_sigma_nu(total_vars: usize) -> (r: (usize, usize))
        ensures
            r.0 == balanced_sigma(total_vars as nat),
            r.1 == balanced_nu(total_vars as nat),
            r.0 + r.1 == total_vars,
    {
        let sigma = div_ceil(total_vars, 2);
        let nu = total_vars - sigma;
        (sigma, nu)
    }

    /// The balanced split for the main matrix, `total_vars = log_k_chunk + log_t`.
    pub fn main_sigma_nu(log_k_chunk: usize, log_t: usize) -> (r: (usize, usize))
        requires
            log_k_chunk + log_t <= usize::MAX,
        ensures
            r.0 == balanced_sigma((log_k_chunk + log_t) as nat),
            r.1 == balanced_nu((log_k_chunk + log_t) as nat),
    {
        Self::balanced_sigma_nu(log_k_chunk + log_t)
    }

    /// `(log2(num_columns), log2(max_num_rows))` of the main context, when both are set.
    pub fn try_get_main_sigma_nu(&self) -> (r: Option<(usize, usize)>)
        requires
            self.wf(),
        ensures
            r is Some <==> (self.dims(DoryContext::Main).num_columns is Some && self.dims(
                DoryContext::Main,
            ).max_num_rows is Some),
            r matches Some(p) ==> p.0 == ceil_log2(
                self.dims(DoryContext::Main).num_columns.unwrap() as nat,
            ) && p.1 == ceil_log2(self.dims(DoryContext::Main).max_num_rows.unwrap() as nat),
    {
        assert(self.dims(DoryContext::Main) == self.main);
        match (self.main.num_columns, self.main.max_num_rows) {
            (Some(cols), Some(rows)) => Some((log_2(cols), log_2(rows))),
            _ => None,
        }
    }

    /// Balanced `(sigma, nu)` for an advice budget of `max_advice_size_bytes` bytes of
    /// 64-bit words: the word count is rounded up to a power of two.
    pub fn advice_sigma_nu_from_max_bytes(max_advice_size_bytes: usize) -> (r: (usize, usize))
        ensures
            r.0 == balanced_sigma(ceil_log2((max_advice_size_bytes / 8) as nat)),
            r.1 == balanced_nu(ceil_log2((max_advice_size_bytes / 8) as nat)),
    {
        let words = max_advice_size_bytes / 8;
        let len = next_power_of_two(words);
        let len = if len >= 1 { len } else { 1 };
        let advice_vars = log_2(len);
        proof {
            lemma_ceil_log2_pow2(ceil_log2(words as nat));
        }
        Self::balanced_sigma_nu(advice_vars)
    }

    /// Row variables of the cycle segment: `max(0, log_t - sigma_main)`.
    pub fn cycle_row_len(log_t: usize, sigma_main: usize) -> (r: usize)
        ensures
            r == saturating_diff(log_t as nat, sigma_main as nat),
    {
        log_t.saturating_sub(sigma_main)
    }

    /// The main log-embedding: the recorded one if positive, otherwise
    /// `log2(columns) + log2(rows)` of the main context.
    pub fn get_main_log_embedding(&self) -> (r: usize)
        requires
            self.wf(),
            self.spec_main_log_embedding() == 0 ==> self.dims(DoryContext::Main).num_columns is Some
                && self.dims(DoryContext::Main).max_num_rows is Some,
        ensures
            r == spec_main_log_embedding_of(*self),
    {
        let stored = self.main_log_embedding;
        if stored > 0 {
            stored
        } else {
            assert(self.dims(DoryContext::Main) == self.main);
            let main_cols = self.main.num_columns.unwrap();
            let main_rows = self.main.max_num_rows.unwrap();
            let a = log_2(main_cols);
            let b = log_2(main_rows);
            proof {
                lemma_usize_bits();
            }
            a + b
        }
    }

    /// The active context.
    pub fn current_context(&self) -> (r: DoryContext)
        ensures
            r == self.spec_context(),
    {
        self.current_context
    }

    /// Makes `context` the active context; the guard remembers the previous one.
    pub fn with_context(&mut self, context: DoryContext) -> (guard: DoryContextGuard)
        ensures
            guard.previous() == old(self).spec_context(),
            final(self).spec_context() == context,
            final(self).same_dims(&*old(self)),
            final(self).spec_main_log_embedding() == old(self).spec_main_log_embedding(),
            final(self).spec_layout() == old(self).spec_layout(),
    {
        let previous = self.current_context;
        self.current_context = context;
        DoryContextGuard { previous_context: previous }
    }

    /// Reinstates the context recorded by a guard.
    pub fn restore_context(&mut self, guard: DoryContextGuard)
        ensures
            final(self).spec_context() == guard.previous(),
            final(self).same_dims(&*old(self)),
            final(self).spec_main_log_embedding() == old(self).spec_main_log_embedding(),
            final(self).spec_layout() == old(self).spec_layout(),
    {
        self.current_context = guard.previous_context;
    }

    /// The active layout.
    pub fn get_layout(&self) -> (r: DoryLayout)
        ensures
            r == self.spec_layout(),
    {
        self.current_layout
    }

    /// Sets the layout.
    pub fn set_layout(&mut self, layout: DoryLayout)
        ensures
            final(self).spec_layout() == layout,
            final(self).same_dims(&*old(self)),
            final(self).spec_main_log_embedding() == old(self).spec_main_log_embedding(),
            final(self).spec_context() == old(self).spec_context(),
    {
        self.current_layout = layout;
    }

    /// `(num_rows, num_cols)` of the active context.
    pub fn matrix_shape(&self) -> (r: (usize, usize))
        requires
            self.current_dims().max_num_rows is Some,
            self.current_dims().num_columns is Some,
        ensures
            r == (self.current_dims().max_num_rows.unwrap(), self.current_dims().num_columns.unwrap()),
    {
        (self.get_max_num_rows(), self.get_num_columns())
    }

    /// The main context's `K`.
    pub fn main_k(&self) -> (r: usize)
        requires
            self.spec_main_k() is Some,
        ensures
            r == self.spec_main_k().unwrap(),
    {
        self.main_k_chunk.unwrap()
    }

    /// The main context's stored `T`.
    pub fn main_t(&self) -> (r: usize)
        requires
            self.dims(DoryContext::Main).t is Some,
        ensures
            r == self.dims(DoryContext::Main).t.unwrap(),
    {
        assert(self.dims(DoryContext::Main) == self.main);
        self.main.t.unwrap()
    }

    /// The main context's column count.
    pub fn configured_main_num_columns(&self) -> (r: usize)
        requires
            self.dims(DoryContext::Main).num_columns is Some,
        ensures
            r == self.dims(DoryContext::Main).num_columns.unwrap(),
    {
        assert(self.dims(DoryContext::Main) == self.main);
        self.main.num_columns.unwrap()
    }

    fn main_embedding_extra_vars(&self) -> (r: usize)
        requires
            self.wf(),
            self.spec_main_k() is Some,
            self.current_dims().t matches Some(t) && t > 0,
            self.spec_main_log_embedding() == 0 ==> self.dims(DoryContext::Main).num_columns is Some
                && self.dims(DoryContext::Main).max_num_rows is Some,
        ensures
            r == spec_main_embedding_extra_vars(*self),
    {
        let k = self.main_k();
        let t = self.get_T();
        let lk = log_2(k);
        let lt = log_2(t);
        proof {
            lemma_usize_bits();
        }
        let main_total_vars = lk + lt;
        self.get_main_log_embedding().saturating_sub(main_total_vars)
    }

    /// Address-major column stride of one-hot embeddings: `2^(extra vars)` in the main
    /// context under the address-major layout, `1` otherwise.
    pub fn address_major_one_hot_stride(&self) -> (r: usize)
        requires
            self.wf(),
            self.spec_context() == DoryContext::Main && self.spec_layout()
                == DoryLayout::AddressMajor ==> {
                &&& self.spec_main_k() is Some
                &&& self.current_dims().t matches Some(t) && t > 0
                &&& self.spec_main_log_embedding() == 0 ==> self.dims(
                    DoryContext::Main,
                ).num_columns is Some && self.dims(DoryContext::Main).max_num_rows is Some
                &&& spec_main_embedding_extra_vars(*self) < usize::BITS
            },
        ensures
            r == (if self.spec_context() == DoryContext::Main && self.spec_layout()
                == DoryLayout::AddressMajor {
                pow2(spec_main_embedding_extra_vars(*self))
            } else {
                1
            }),
    {
        if self.current_context() != DoryContext::Main || self.get_layout()
            != DoryLayout::AddressMajor {
            return 1;
        }
        pow2_usize(self.main_embedding_extra_vars())
    }

    /// Address-major column stride of dense embeddings: `2^(extra vars + log2 K)` in
    /// the main context under the address-major layout, `1` otherwise.
    pub fn address_major_dense_stride(&self) -> (r: usize)
        requires
            self.wf(),
            self.spec_context() == DoryContext::Main && self.spec_layout()
                == DoryLayout::AddressMajor ==> {
                &&& self.spec_main_k() is Some
                &&& self.current_dims().t matches Some(t) && t > 0
                &&& self.spec_main_log_embedding() == 0 ==> self.dims(
                    DoryContext::Main,
                ).num_columns is Some && self.dims(DoryContext::Main).max_num_rows is Some
                &&& spec_main_embedding_extra_vars(*self) + ceil_log2(
                    self.spec_main_k().unwrap() as nat,
                ) < usize::BITS
            },
        ensures
            r == (if self.spec_context() == DoryContext::Main && self.spec_layout()
                == DoryLayout::AddressMajor {
                pow2(
                    spec_main_embedding_extra_vars(*self) + ceil_log2(
                        self.spec_main_k().unwrap() as nat,
                    ),
                )
            } else {
                1
            }),
    {
        if self.current_context() != DoryContext::Main || self.get_layout()
            != DoryLayout::AddressMajor {
            return 1;
        }
        let extra = self.main_embedding_extra_vars();
        let lk = log_2(self.main_k());
        pow2_usize(extra + lk)
    }

    /// The cycle-domain size of the active matrix: the stored `T` outside the main
    /// context, `rows * columns / K` inside it, where `K` must divide `rows * columns`.
    pub fn get_matrix_t(&self) -> (r: usize)
        requires
            self.wf(),
            self.spec_context() != DoryContext::Main ==> self.current_dims().t is Some,
            self.spec_context() == DoryContext::Main ==> {
                &&& self.spec_main_k() is Some
                &&& self.dims(DoryContext::Main).max_num_rows is Some
                &&& self.dims(DoryContext::Main).num_columns is Some
                &&& self.dims(DoryContext::Main).max_num_rows.unwrap() * self.dims(
                    DoryContext::Main,
                ).num_columns.unwrap() <= usize::MAX
                &&& (self.dims(DoryContext::Main).max_num_rows.unwrap() * self.dims(
                    DoryContext::Main,
                ).num_columns.unwrap()) % (self.spec_main_k().unwrap() as int) == 0
            },
        ensures
            self.spec_context() != DoryContext::Main ==> r == self.current_dims().t.unwrap(),
            self.spec_context() == DoryContext::Main ==> r == (self.dims(
                DoryContext::Main,
            ).max_num_rows.unwrap() * self.dims(DoryContext::Main).num_columns.unwrap()) / (
            self.spec_main_k().unwrap() as int),
    {
        let context = self.current_context();
        if context != DoryContext::Main {
            return self.get_T();
        }
        let k = self.main_k();
        let num_rows = self.get_max_num_rows();
        let num_cols = self.get_num_columns();
        let total = num_rows * num_cols;
        total / k
    }

    /// Row count of the active context.
    pub fn get_max_num_rows(&self) -> (r: usize)
        requires
            self.current_dims().max_num_rows is Some,
        ensures
            r == self.current_dims().max_num_rows.unwrap(),
    {
        self.get_dims(self.current_context).max_num_rows.unwrap()
    }

    /// Column count of the active context.
    pub fn get_num_columns(&self) -> (r: usize)
        requires
            self.current_dims().num_columns is Some,
        ensures
            r == self.current_dims().num_columns.unwrap(),
    {
        self.get_dims(self.current_context).num_columns.unwrap()
    }

    /// Stored `T` of the active context.
    #[allow(non_snake_case)]
    pub fn get_T(&self) -> (r: usize)
        requires
            self.current_dims().t is Some,
        ensures
            r == self.current_dims().t.unwrap(),
    {
        self.get_dims(self.current_context).t.unwrap()
    }

    /// Matrix dimensions `(num_columns, num_rows, T)` for `K * T` coefficients: a
    /// square matrix when `log2(K*T)` is even, twice as many columns as rows when odd.
    #[allow(non_snake_case)]
    fn calculate_dimensions(K: usize, T: usize) -> (r: (usize, usize, usize))
        requires
            K * T <= usize::MAX,
            K * T > 0,
        ensures
            r.0 == pow2(balanced_sigma(ceil_log2((K * T) as nat))),
            r.1 == pow2(balanced_nu(ceil_log2((K * T) as nat))),
            r.2 == T,
            r.0 * r.1 == pow2(ceil_log2((K * T) as nat)),
            r.0 * r.1 >= K * T,
            ceil_log2((K * T) as nat) % 2 == 0 ==> r.0 == r.1,
            ceil_log2((K * T) as nat) % 2 == 1 ==> r.0 == 2 * r.1,
    {
        let total_size = K * T;
        let total_vars = log_2(total_size);
        proof {
            lemma_usize_bits();
            lemma_ceil_log2_bounds(total_size as nat);
            vstd::arithmetic::power2::lemma_pow2_adds(
                balanced_sigma(total_vars as nat), balanced_nu(total_vars as nat));
            if total_vars % 2 == 1 {
                vstd::arithmetic::power2::lemma_pow2_unfold(balanced_sigma(total_vars as nat));
            }
        }
        if total_vars % 2 == 0 {
            let side = pow2_usize(total_vars / 2);
            (side, side, T)
        } else {
            let (sigma, nu) = Self::balanced_sigma_nu(total_vars);
            (pow2_usize(sigma), pow2_usize(nu), T)
        }
    }

    #[allow(non_snake_case)]
    fn initialize_context_common(
        &mut self,
        K: usize,
        matrix_t: usize,
        stored_t: usize,
        context: DoryContext,
    ) -> (r: Option<()>)
        requires
            old(self).wf(),
            K * matrix_t <= usize::MAX,
            K * matrix_t > 0,
        ensures
            r == Some(()),
            final(self).wf(),
            old(self).same_except_dims(&*final(self), context),
            final(self).dims(context) == dims_after_init(
                old(self).dims(context),
                K as nat,
                matrix_t as nat,
                stored_t,
            ),
    {
        let (num_columns, num_rows, _) = Self::calculate_dimensions(K, matrix_t);
        proof {
            vstd::arithmetic::power2::lemma_pow2_pos(
                balanced_sigma(ceil_log2((K * matrix_t) as nat)));
            vstd::arithmetic::power2::lemma_pow2_pos(
                balanced_nu(ceil_log2((K * matrix_t) as nat)));
        }
        self.set_num_columns_for_context(num_columns, context);
        self.set_T_for_context(stored_t, context);
        self.set_max_num_rows_for_context(num_rows, context);
        proof {
            lemma_wf_after_dims_update(*old(self), *self, context);
        }
        Some(())
    }

    /// Initialises the dimensions of `context` for `K` addresses and `T` cycles. The
    /// main context is initialised with log-embedding `log2 K + log2 T` and, when a
    /// layout is given, that layout; other contexts leave layout and active context alone.
    #[allow(non_snake_case)]
    pub fn initialize_context(
        &mut self,
        K: usize,
        T: usize,
        context: DoryContext,
        layout: Option<DoryLayout>,
    ) -> (r: Option<()>)
        requires
            old(self).wf(),
            K > 0,
            T > 0,
            context != DoryContext::Main ==> K * T <= usize::MAX,
            context == DoryContext::Main ==> {
                &&& old(self).spec_main_k() matches Some(e) ==> e == K
                &&& ceil_log2(K as nat) + ceil_log2(T as nat) <= usize::MAX
                &&& ceil_log2(T as nat) < usize::BITS
                &&& K * pow2(ceil_log2(T as nat)) <= usize::MAX
            },
        ensures
            r == Some(()),
            final(self).wf(),
            context != DoryContext::Main ==> {
                &&& old(self).same_except_dims(&*final(self), context)
                &&& final(self).dims(context) == dims_after_init(
                    old(self).dims(context),
                    K as nat,
                    T as nat,
                    T,
                )
            },
            context == DoryContext::Main ==> main_initialized(
                *old(self),
                *final(self),
                K,
                pow2(ceil_log2(T as nat)) as nat,
                T,
                (ceil_log2(K as nat) + ceil_log2(T as nat)) as usize,
                layout,
            ),
    {
        if context == DoryContext::Main {
            let lk = log_2(K);
            let lt = log_2(T);
            proof {
                assert(lk + lt - lk == lt);
            }
            return self.initialize_main_with_log_embedding(K, T, lk + lt, layout);
        }
        proof {
            assert(K * T > 0) by (nonlinear_arith)
                requires
                    K > 0,
                    T > 0,
            ;
        }
        self.initialize_context_common(K, T, T, context)
    }

    /// Initialises the main context with execution length `T` and an explicit
    /// log-embedding: the matrix covers `K * 2^(matrix_total_vars - log2 K)` coefficients.
    /// Also makes main the active context and sets the layout when one is given.
    #[allow(non_snake_case)]
    pub fn initialize_main_with_log_embedding(
        &mut self,
        K: usize,
        T: usize,
        matrix_total_vars: usize,
        layout: Option<DoryLayout>,
    ) -> (r: Option<()>)
        requires
            old(self).wf(),
            K > 0,
            old(self).spec_main_k() matches Some(e) ==> e == K,
            saturating_diff(matrix_total_vars as nat, ceil_log2(K as nat)) < usize::BITS,
            K * pow2(saturating_diff(matrix_total_vars as nat, ceil_log2(K as nat)))
                <= usize::MAX,
        ensures
            r == Some(()),
            final(self).wf(),
            main_initialized(
                *old(self),
                *final(self),
                K,
                pow2(saturating_diff(matrix_total_vars as nat, ceil_log2(K as nat))),
                T,
                matrix_total_vars,
                layout,
            ),
    {
        let log_k = log_2(K);
        let shift = matrix_total_vars.saturating_sub(log_k);
        let matrix_t = pow2_usize(shift);
        proof {
            vstd::arithmetic::power2::lemma_pow2_pos(shift as nat);
            assert(K * matrix_t > 0) by (nonlinear_arith)
                requires
                    K > 0,
                    matrix_t > 0,
            ;
        }
        self.initialize_context_common(K, matrix_t, T, DoryContext::Main);
        let ghost after_common = *self;
        self.set_main_k(K);
        let ghost after_k = *self;
        if let Some(l) = layout {
            self.current_layout = l;
        }
        self.current_context = DoryContext::Main;
        self.main_log_embedding = matrix_total_vars;
        proof {
            assert forall|c: DoryContext| #[trigger] self.dims(c) == after_k.dims(c) by {}
            assert forall|c: DoryContext| #[trigger] self.dims(c) == after_common.dims(c) by {
                assert(after_k.dims(c) == after_common.dims(c));
            }
            assert forall|c: DoryContext|
                c != DoryContext::Main implies #[trigger] self.dims(c) == old(self).dims(c) by {
                assert(after_common.dims(c) == old(self).dims(c));
            }
            assert forall|c: DoryContext|
                (#[trigger] self.dims(c)).max_num_rows is Some implies self.dims(
                    c,
                ).max_num_rows.unwrap() > 0 by {
                assert(after_common.dims(c) == self.dims(c));
            }
            assert forall|c: DoryContext|
                (#[trigger] self.dims(c)).num_columns is Some implies self.dims(
                    c,
                ).num_columns.unwrap() > 0 by {
                assert(after_common.dims(c) == self.dims(c));
            }
        }
        Some(())
    }
}

/// Entering a context with [`DoryGlobals::with_context`] and handing its guard to
/// [`DoryGlobals::restore_context`] gives back the globals as they were: `g1` is what the
/// first call leaves of `g0`, `g2` what the second leaves of `g1`.
pub proof fn lemma_context_guard_round_trip(
    g0: DoryGlobals,
    g1: DoryGlobals,
    g2: DoryGlobals,
    guard: DoryContextGuard,
)
    requires
        guard.previous() == g0.spec_context(),
        g1.same_dims(&g0),
        g1.spec_main_log_embedding() == g0.spec_main_log_embedding(),
        g1.spec_layout() == g0.spec_layout(),
        g2.spec_context() == guard.previous(),
        g2.same_dims(&g1),
        g2.spec_main_log_embedding() == g1.spec_main_log_embedding(),
        g2.spec_layout() == g1.spec_layout(),
    ensures
        g2 == g0,
{
    assert(g2.dims(DoryContext::Main) == g1.dims(DoryContext::Main));
    assert(g2.dims(DoryContext::TrustedAdvice) == g1.dims(DoryContext::TrustedAdvice));
    assert(g2.dims(DoryContext::UntrustedAdvice) == g1.dims(DoryContext::UntrustedAdvice));
    assert(g2.dims(DoryContext::Bytecode) == g1.dims(DoryContext::Bytecode));
    assert(g2.dims(DoryContext::ProgramImage) == g1.dims(DoryContext::ProgramImage));
    assert(g1.dims(DoryContext::Main) == g0.dims(DoryContext::Main));
    assert(g1.dims(DoryContext::TrustedAdvice) == g0.dims(DoryContext::TrustedAdvice));
    assert(g1.dims(DoryContext::UntrustedAdvice) == g0.dims(DoryContext::UntrustedAdvice));
    assert(g1.dims(DoryContext::Bytecode) == g0.dims(DoryContext::Bytecode));
    assert(g1.dims(DoryContext::ProgramImage) == g0.dims(DoryContext::ProgramImage));
}

/// Updating only the dimensions of `c` with positive rows and columns keeps the
/// globals well formed.
proof fn lemma_wf_after_dims_update(before: DoryGlobals, after: DoryGlobals, c: DoryContext)
    requires
        before.wf(),
        before.same_except_dims(&after, c),
        after.dims(c).max_num_rows matches Some(r) ==> r > 0,
        after.dims(c).num_columns matches Some(n) ==> n > 0,
    ensures
        after.wf(),
{
    assert forall|c2: DoryContext|
        (#[trigger] after.dims(c2)).max_num_rows is Some implies after.dims(
            c2,
        ).max_num_rows.unwrap() > 0 by {
        if c2 != c {
            assert(after.dims(c2) == before.dims(c2));
        }
    }
    assert forall|c2: DoryContext|
        (#[trigger] after.dims(c2)).num_columns is Some implies after.dims(
            c2,
        ).num_columns.unwrap() > 0 by {
        if c2 != c {
            assert(after.dims(c2) == before.dims(c2));
        }
    }
}

/// Bytecode dimensions for `k_chunk * bytecode_t` coefficients at width `num_columns`.
pub open spec fn bytecode_dims(k_chunk: nat, bytecode_t: nat, num_columns: nat) -> ContextDimensions {
    let total = k_chunk * bytecode_t;
    ContextDimensions {
        t: Some(bytecode_t as usize),
        max_num_rows: Some(
            (if total >= num_columns {
                total / num_columns
            } else {
                1
            }) as usize,
        ),
        num_columns: Some(num_columns as usize),
    }
}

/// Dimensions of a context after initialising it for `k * matrix_t` coefficients with
/// stored length `stored_t` (set fields are kept).
pub open spec fn dims_after_init(
    d: ContextDimensions,
    k: nat,
    matrix_t: nat,
    stored_t: usize,
) -> ContextDimensions {
    let tv = ceil_log2(k * matrix_t);
    ContextDimensions {
        t: set_once(d.t, stored_t),
        max_num_rows: set_once(d.max_num_rows, pow2(balanced_nu(tv)) as usize),
        num_columns: set_once(d.num_columns, pow2(balanced_sigma(tv)) as usize),
    }
}

/// `after` is `before` with the main context initialised for `k * matrix_t` coefficients,
/// stored length `t`, log-embedding `log_embedding` and optional layout.
pub open spec fn main_initialized(
    before: DoryGlobals,
    after: DoryGlobals,
    k: usize,
    matrix_t: nat,
    t: usize,
    log_embedding: usize,
    layout: Option<DoryLayout>,
) -> bool {
    &&& forall|c: DoryContext|
        c != DoryContext::Main ==> #[trigger] after.dims(c) == before.dims(c)
    &&& after.dims(DoryContext::Main) == dims_after_init(
        before.dims(DoryContext::Main),
        k as nat,
        matrix_t,
        t,
    )
    &&& after.spec_main_k() == Some(k)
    &&& after.spec_main_log_embedding() == log_embedding
    &&& after.spec_context() == DoryContext::Main
    &&& after.spec_layout() == (match layout {
        Some(l) => l,
        None => before.spec_layout(),
    })
}

/// What [`DoryGlobals::get_main_log_embedding`] returns.
pub open spec fn spec_main_log_embedding_of(g: DoryGlobals) -> nat {
    if g.spec_main_log_embedding() > 0 {
        g.spec_main_log_embedding() as nat
    } else {
        ceil_log2(g.dims(DoryContext::Main).num_columns.unwrap() as nat) + ceil_log2(
            g.dims(DoryContext::Main).max_num_rows.unwrap() as nat,
        )
    }
}

/// Main log-embedding minus `log2 K + log2 T` (of the active context), clamped at zero.
pub open spec fn spec_main_embedding_extra_vars(g: DoryGlobals) -> nat {
    saturating_diff(
        spec_main_log_embedding_of(g),
        ceil_log2(g.spec_main_k().unwrap() as nat) + ceil_log2(g.current_dims().t.unwrap() as nat),
    )
}

/// With `K` a power of two, the address-major dense stride is `K` times the
/// address-major one-hot stride.
pub proof fn lemma_dense_stride_is_k_times_one_hot(g: DoryGlobals)
    requires
        g.spec_main_k() matches Some(k) && is_power_of_two(k as nat),
    ensures
        pow2(spec_main_embedding_extra_vars(g) + ceil_log2(g.spec_main_k().unwrap() as nat)) == (
        g.spec_main_k().unwrap() as nat) * pow2(spec_main_embedding_extra_vars(g)),
{
    let k = g.spec_main_k().unwrap() as nat;
    let e = choose|e: nat| pow2(e) == k;
    lemma_ceil_log2_pow2(e);
    lemma_pow2_adds(spec_main_embedding_extra_vars(g), e);
    assert(pow2(spec_main_embedding_extra_vars(g)) * pow2(e) == pow2(e) * pow2(
        spec_main_embedding_extra_vars(g),
    )) by (nonlinear_arith);
}

} // verus!
