//! Commitment-layout descriptors: the scheme-tagged bytes that fix how a committed
//! matrix is laid out, their public inputs, and their wire encoding.
use vstd::arithmetic::power2::{lemma2_to64, lemma_pow2_adds, lemma_pow2_pos, pow2};
use vstd::prelude::*;

verus! {

/// A scheme tag and a scheme-specific payload describing a commitment layout.
#[derive(Clone, Debug, PartialEq, Eq)]
pub struct LayoutDescriptor {
    pub scheme_tag: u16,
    pub payload: Vec<u8>,
}

/// Public dimensions against which a descriptor is validated.
#[derive(Clone, Copy, Debug, PartialEq, Eq)]
pub struct LayoutPublicInputs {
    pub log_k: usize,
    pub log_t: usize,
    pub main_log_embedding: Option<usize>,
}

/// Why a descriptor was rejected.
#[derive(Clone, Debug, PartialEq, Eq)]
pub enum LayoutError {
    SchemeTagMismatch { expected: u16, actual: u16 },
    MalformedDescriptor,
}

/// A commitment layout that can be described by, and rebuilt from, a descriptor.
pub trait CommitmentLayout: Sized {
    /// The descriptor of this layout.
    fn descriptor(&self) -> LayoutDescriptor;

    /// The descriptors and public dimensions the layout can be rebuilt from without
    /// exceeding machine limits.
    spec fn supports(descriptor: LayoutDescriptor, public: LayoutPublicInputs) -> bool;

    /// Rebuilds a layout from a descriptor and the public dimensions.
    fn validate_descriptor(
        descriptor: &LayoutDescriptor,
        public: &LayoutPublicInputs,
    ) -> Result<Self, LayoutError>
        requires
            Self::supports(*descriptor, *public),
    ;
}

/// The layout of a scheme without layout choices: tag `0`, empty payload.
#[derive(Clone, Copy, Debug, Default, PartialEq, Eq)]
pub struct NoCommitmentLayout;

impl NoCommitmentLayout {
    /// A scheme without layout choices needs no setup variables for it.
    pub fn max_setup_vars(&self) -> (r: usize)
        ensures
            r == 0,
    {
        0
    }
}

impl CommitmentLayout for NoCommitmentLayout {
    open spec fn supports(descriptor: LayoutDescriptor, public: LayoutPublicInputs) -> bool {
        true
    }

    fn descriptor(&self) -> (r: LayoutDescriptor)
        ensures
            r.scheme_tag == 0,
            r.payload@ == Seq::<u8>::empty(),
    {
        LayoutDescriptor { scheme_tag: 0, payload: Vec::new() }
    }

    fn validate_descriptor(descriptor: &LayoutDescriptor, _public: &LayoutPublicInputs) -> (r:
        Result<Self, LayoutError>)
        ensures
            r is Ok <==> descriptor.scheme_tag == 0 && descriptor.payload@.len() == 0,
            r is Err ==> r == Err::<Self, LayoutError>(LayoutError::MalformedDescriptor),
    {
        if descriptor.scheme_tag != 0 || descriptor.payload.len() != 0 {
            return Err(LayoutError::MalformedDescriptor);
        }
        Ok(NoCommitmentLayout)
    }
}

/// What a commitment is made for: the main trace matrix or an advice vector.
#[derive(Clone, Copy, Debug, PartialEq, Eq)]
pub enum CommitmentContext {
    MainTrace { k: usize, trace_len: usize, commitment_total_vars: usize },
    TrustedAdvice { len: usize },
    UntrustedAdvice { len: usize },
}

/// The family a committed polynomial belongs to.
#[derive(Clone, Copy, Debug, PartialEq, Eq)]
pub enum PolynomialFamily {
    MainTraceOneHot,
    MainTraceDense,
    TrustedAdvice,
    UntrustedAdvice,
}

/// Logical dimensions of a committed polynomial.
#[derive(Clone, Copy, Debug, PartialEq, Eq)]
pub struct LogicalDimensions {
    pub log_k: usize,
    pub log_t: usize,
    pub main_log_embedding: Option<usize>,
}

// ---------------------------------------------------------------------------
// Wire encoding: the tag as two little-endian bytes, the payload length as eight
// little-endian bytes, then the payload. Both compression modes encode alike.

/// Whether group elements are written compressed (no effect on descriptors).
#[derive(Clone, Copy, Debug, PartialEq, Eq)]
pub enum Compress {
    Yes,
    No,
}

/// Whether decoded values are checked (no effect on descriptors).
#[derive(Clone, Copy, Debug, PartialEq, Eq)]
pub enum Validate {
    Yes,
    No,
}

/// Why bytes could not be decoded.
#[derive(Clone, Copy, Debug, PartialEq, Eq)]
pub enum SerializationError {
    /// The input ended before the value did.
    UnexpectedEnd,
}

/// The `n` low-order bytes of `x`, least significant first.
pub open spec fn le_bytes(x: nat, n: nat) -> Seq<u8>
    decreases n,
{
    if n == 0 {
        Seq::empty()
    } else {
        seq![(x % 256) as u8] + le_bytes(x / 256, (n - 1) as nat)
    }
}

/// The number whose little-endian bytes are `s`.
pub open spec fn le_value(s: Seq<u8>) -> nat
    decreases s.len(),
{
    if s.len() == 0 {
        0
    } else {
        (s[0] + 256 * le_value(s.subrange(1, s.len() as int))) as nat
    }
}

/// The encoding of a descriptor.
pub open spec fn descriptor_bytes(scheme_tag: u16, payload: Seq<u8>) -> Seq<u8> {
    le_bytes(scheme_tag as nat, 2) + le_bytes(payload.len(), 8) + payload
}

/// The descriptor (tag and payload) decoded from the start of `bytes`; trailing bytes
/// are left unread.
pub open spec fn decode_descriptor(bytes: Seq<u8>) -> Result<(u16, Seq<u8>), SerializationError> {
    if bytes.len() < 10 {
        Err(SerializationError::UnexpectedEnd)
    } else {
        let tag = le_value(bytes.subrange(0, 2));
        let len = le_value(bytes.subrange(2, 10));
        if bytes.len() - 10 < len {
            Err(SerializationError::UnexpectedEnd)
        } else {
            Ok((tag as u16, bytes.subrange(10, 10 + len as int)))
        }
    }
}

proof fn lemma_le_bytes_len(x: nat, n: nat)
    ensures
        le_bytes(x, n).len() == n,
    decreases n,
{
    if n > 0 {
        lemma_le_bytes_len(x / 256, (n - 1) as nat);
    }
}

/// `2^(8(n+1)) == 256 * 2^(8n)`.
proof fn lemma_pow2_byte_step(n: nat)
    ensures
        pow2(8 * (n + 1)) == 256 * pow2(8 * n),
{
    lemma2_to64();
    lemma_pow2_adds(8, 8 * n);
    assert(8 * (n + 1) == 8 + 8 * n);
}

/// Reading back `n` little-endian bytes of `x` gives `x` modulo `2^(8n)`.
proof fn lemma_le_round_trip(x: nat, n: nat)
    ensures
        le_value(le_bytes(x, n)) == x % pow2(8 * n),
    decreases n,
{
    lemma_le_bytes_len(x, n);
    lemma2_to64();
    if n == 0 {
    } else {
        let rest = le_bytes(x / 256, (n - 1) as nat);
        let s = le_bytes(x, n);
        assert(s.subrange(1, s.len() as int) =~= rest);
        lemma_le_round_trip(x / 256, (n - 1) as nat);
        let p = pow2(8 * ((n - 1) as nat));
        lemma_pow2_pos(8 * ((n - 1) as nat));
        vstd::arithmetic::div_mod::lemma_breakdown(x as int, 256, p as int);
        lemma_pow2_byte_step((n - 1) as nat);
    }
}

/// Decoding the encoding of a descriptor gives the descriptor back.
pub proof fn lemma_descriptor_round_trip(scheme_tag: u16, payload: Seq<u8>)
    requires
        payload.len() < 0x1_0000_0000_0000_0000,
    ensures
        decode_descriptor(descriptor_bytes(scheme_tag, payload)) == Ok::<
            (u16, Seq<u8>),
            SerializationError,
        >((scheme_tag, payload)),
{
    let b = descriptor_bytes(scheme_tag, payload);
    lemma_le_bytes_len(scheme_tag as nat, 2);
    lemma_le_bytes_len(payload.len(), 8);
    assert(b.subrange(0, 2) =~= le_bytes(scheme_tag as nat, 2));
    assert(b.subrange(2, 10) =~= le_bytes(payload.len(), 8));
    assert(b.subrange(10, 10 + payload.len() as int) =~= payload);
    lemma_le_round_trip(scheme_tag as nat, 2);
    lemma_le_round_trip(payload.len(), 8);
    lemma2_to64();
    vstd::arithmetic::div_mod::lemma_small_mod(scheme_tag as nat, 0x1_0000);
    vstd::arithmetic::div_mod::lemma_small_mod(payload.len(), 0x1_0000_0000_0000_0000);
}

/// Appends the `n` low-order little-endian bytes of `x`.
fn push_le(out: &mut Vec<u8>, x: u64, n: usize)
    requires
        n <= 8,
    ensures
        final(out)@ == old(out)@ + le_bytes(x as nat, n as nat),
{
    let mut v = x;
    let mut i: usize = 0;
    while i < n
        invariant
            i <= n,
            old(out)@ + le_bytes(x as nat, n as nat) == out@ + le_bytes(v as nat, (n - i) as nat),
        decreases n - i,
    {
        let b = (v % 256) as u8;
        let ghost before = out@;
        out.push(b);
        proof {
            assert(le_bytes(v as nat, (n - i) as nat) == seq![b] + le_bytes(
                (v / 256) as nat,
                (n - i - 1) as nat,
            ));
            assert(before + le_bytes(v as nat, (n - i) as nat) =~= out@ + le_bytes(
                (v / 256) as nat,
                (n - i - 1) as nat,
            ));
        }
        v = v / 256;
        i = i + 1;
    }
    proof {
        assert(out@ + le_bytes(v as nat, 0) =~= out@);
    }
}

/// Reads `n <= 8` little-endian bytes starting at `start`.
fn read_le(bytes: &[u8], start: usize, n: usize) -> (r: u64)
    requires
        n <= 8,
        start + n <= bytes.len(),
    ensures
        r == le_value(bytes@.subrange(start as int, start + n)),
{
    let mut acc: u64 = 0;
    let mut i: usize = n;
    proof {
        lemma2_to64();
        vstd::arithmetic::power2::lemma2_to64_rest();
    }
    while i > 0
        invariant
            i <= n,
            n <= 8,
            start + n <= bytes.len(),
            acc == le_value(bytes@.subrange(start + i, start + n)),
            acc < pow2(8 * ((n - i) as nat)),
            pow2(56) == 0x0100_0000_0000_0000,
        decreases i,
    {
        let ghost s = bytes@.subrange(start + i - 1, start + n);
        proof {
            assert(s.subrange(1, s.len() as int) =~= bytes@.subrange(start + i, start + n));
            if n - i < 7 {
                vstd::arithmetic::power2::lemma_pow2_strictly_increases(
                    8 * ((n - i) as nat), 56);
            }
            assert(acc < 0x0100_0000_0000_0000);
            lemma_pow2_byte_step((n - i) as nat);
        }
        acc = bytes[start + i - 1] as u64 + 256 * acc;
        i = i - 1;
    }
    acc
}

impl LayoutDescriptor {
    /// The encoding of this descriptor.
    pub fn serialize_with_mode(&self, _compress: Compress) -> (r: Vec<u8>)
        ensures
            r@ == descriptor_bytes(self.scheme_tag, self.payload@),
    {
        let mut out: Vec<u8> = Vec::new();
        push_le(&mut out, self.scheme_tag as u64, 2);
        push_le(&mut out, self.payload.len() as u64, 8);
        let ghost header = out@;
        let mut i: usize = 0;
        while i < self.payload.len()
            invariant
                i <= self.payload@.len(),
                out@ == header + self.payload@.subrange(0, i as int),
            decreases self.payload@.len() - i,
        {
            out.push(self.payload[i]);
            proof {
                assert(self.payload@.subrange(0, i + 1) =~= self.payload@.subrange(0, i as int).push(
                    self.payload@[i as int],
                ));
            }
            i = i + 1;
        }
        proof {
            assert(self.payload@.subrange(0, i as int) =~= self.payload@);
        }
        out
    }

    /// Decodes a descriptor from the start of `bytes`.
    pub fn deserialize_with_mode(bytes: &[u8], _compress: Compress, _validate: Validate) -> (r:
        Result<LayoutDescriptor, SerializationError>)
        ensures
            match decode_descriptor(bytes@) {
                Ok(v) => r matches Ok(d) && d.scheme_tag == v.0 && d.payload@ == v.1,
                Err(e) => r == Err::<LayoutDescriptor, SerializationError>(e),
            },
    {
        if bytes.len() < 10 {
            return Err(SerializationError::UnexpectedEnd);
        }
        let tag = read_le(bytes, 0, 2);
        let len = read_le(bytes, 2, 8);
        if ((bytes.len() - 10) as u64) < len {
            return Err(SerializationError::UnexpectedEnd);
        }
        proof {
            let s = bytes@.subrange(0, 2);
            let s1 = s.subrange(1, 2);
            assert(s1.subrange(1, 1) =~= Seq::<u8>::empty());
            assert(le_value(s1.subrange(1, 1)) == 0);
            assert(le_value(s1) == s1[0]);
            assert(le_value(s) == s[0] + 256 * s1[0]);
            assert(tag < 0x1_0000);
        }
        let n = len as usize;
        let mut payload: Vec<u8> = Vec::new();
        let mut i: usize = 0;
        while i < n
            invariant
                i <= n,
                10 + n <= bytes.len(),
                payload@ == bytes@.subrange(10, 10 + i),
            decreases n - i,
        {
            payload.push(bytes[10 + i]);
            proof {
                assert(bytes@.subrange(10, 10 + i + 1) =~= bytes@.subrange(10, 10 + i).push(
                    bytes@[10 + i],
                ));
            }
            i = i + 1;
        }
        Ok(LayoutDescriptor { scheme_tag: tag as u16, payload })
    }
}

} // verus!
