//! Opening points with their endianness, and the canonical final opening point of the
//! batched polynomial commitment opening.
use crate::field::Fr;
use vstd::prelude::*;

verus! {

/// Endianness flag of a big-endian point.
pub const BIG_ENDIAN: bool = false;

/// Endianness flag of a little-endian point.
pub const LITTLE_ENDIAN: bool = true;

/// A point at which polynomials are opened; `E` tells the variable order.
#[derive(Clone, Debug, PartialEq)]
pub struct OpeningPoint<const E: bool> {
    pub r: Vec<Fr>,
}

impl<const E: bool> OpeningPoint<E> {
    /// The point with coordinates `r`.
    pub fn new(r: Vec<Fr>) -> (p: Self)
        ensures
            p.r@ == r@,
    {
        OpeningPoint { r }
    }

    /// Number of coordinates.
    pub fn len(&self) -> (n: usize)
        ensures
            n == self.r.len(),
    {
        self.r.len()
    }

    /// The coordinate at `index`.
    pub fn get(&self, index: usize) -> (x: Fr)
        requires
            index < self.r.len(),
        ensures
            x == self.r@[index as int],
    {
        self.r[index]
    }

    /// The first `mid` coordinates and the rest, as two points.
    pub fn split_at(&self, mid: usize) -> (parts: (Self, Self))
        requires
            mid <= self.r.len(),
        ensures
            parts.0.r@ == self.r@.take(mid as int),
            parts.1.r@ == self.r@.skip(mid as int),
    {
        let left = copy_range(&self.r, 0, mid);
        let right = copy_range(&self.r, mid, self.r.len());
        proof {
            assert(self.r@.subrange(0, mid as int) =~= self.r@.take(mid as int));
            assert(self.r@.subrange(mid as int, self.r.len() as int) =~= self.r@.skip(mid as int));
        }
        (OpeningPoint { r: left }, OpeningPoint { r: right })
    }

    /// `"big"` or `"little"`.
    pub fn endianness(&self) -> (s: &'static str)
        ensures
            E == BIG_ENDIAN ==> s@ == "big"@,
            E != BIG_ENDIAN ==> s@ == "little"@,
    {
        if E == BIG_ENDIAN {
            "big"
        } else {
            "little"
        }
    }

    /// The same point in endianness `S`: the coordinates reversed when `S` differs from `E`.
    pub fn match_endianness<const S: bool>(&self) -> (p: OpeningPoint<S>)
        ensures
            E != S ==> p.r@ == self.r@.reverse(),
            E == S ==> p.r@ == self.r@,
    {
        let n = self.r.len();
        let mut out: Vec<Fr> = Vec::new();
        let mut i: usize = 0;
        while i < n
            invariant
                n == self.r.len(),
                i <= n,
                out.len() == i,
                forall|k: int|
                    0 <= k < i ==> #[trigger] out@[k] == (if E != S {
                        self.r@[n - 1 - k]
                    } else {
                        self.r@[k]
                    }),
            decreases n - i,
        {
            if E != S {
                out.push(self.r[n - 1 - i]);
            } else {
                out.push(self.r[i]);
            }
            i = i + 1;
        }
        proof {
            if E != S {
                assert(out@ =~= self.r@.reverse());
            } else {
                assert(out@ =~= self.r@);
            }
        }
        OpeningPoint { r: out }
    }
}

/// Converting a point to another endianness and back gives the same coordinates: `q` is
/// what [`OpeningPoint::match_endianness`] makes of `p`, `back` what it makes of `q`.
pub proof fn lemma_match_endianness_round_trip<const E: bool, const S: bool>(
    p: OpeningPoint<E>,
    q: OpeningPoint<S>,
    back: OpeningPoint<E>,
)
    requires
        E != S ==> q.r@ == p.r@.reverse(),
        E == S ==> q.r@ == p.r@,
        S != E ==> back.r@ == q.r@.reverse(),
        S == E ==> back.r@ == q.r@,
    ensures
        back.r@ == p.r@,
{
    assert(p.r@.reverse().reverse() =~= p.r@);
}

/// `v[start..end]` as a vector.
fn copy_range(v: &Vec<Fr>, start: usize, end: usize) -> (r: Vec<Fr>)
    requires
        start <= end <= v.len(),
    ensures
        r@ == v@.subrange(start as int, end as int),
{
    let mut out: Vec<Fr> = Vec::new();
    let mut i = start;
    while i < end
        invariant
            start <= i <= end,
            end <= v.len(),
            out@ == v@.subrange(start as int, i as int),
        decreases end - i,
    {
        out.push(v[i]);
        i = i + 1;
        proof {
            assert(out@ =~= v@.subrange(start as int, i as int));
        }
    }
    out
}

/// Why the parts of a final opening point do not fit together.
#[derive(Clone, Debug, PartialEq, Eq)]
pub enum OpeningPointError {
    /// The stage-6 cycle challenges are fewer than the native cycle variables.
    CycleChallengesTooShort,
    /// The stage-6 cycle challenges do not start with the native cycle variables.
    CyclePrefixMismatch { cycle_full_len: usize, native_len: usize },
}

/// The parts from which the final opening point of the batched opening is assembled.
pub enum FinalOpeningPointParts {
    /// A larger precommitted opening already fixes the final point.
    DominantPrecommittedAnchor { point: OpeningPoint<BIG_ENDIAN> },
    /// Native openings, still to be ordered into the final point.
    Native {
        r_address_stage7: Vec<Fr>,
        r_cycle_stage6: OpeningPoint<BIG_ENDIAN>,
        hamming_point: OpeningPoint<BIG_ENDIAN>,
        log_k_chunk: usize,
    },
}

/// `r` carries the coordinates, or the error, of `s`.
pub open spec fn point_result_is(
    r: Result<OpeningPoint<BIG_ENDIAN>, OpeningPointError>,
    s: Result<Seq<Fr>, OpeningPointError>,
) -> bool {
    match s {
        Ok(coords) => r matches Ok(p) && p.r@ == coords,
        Err(e) => r == Err::<OpeningPoint<BIG_ENDIAN>, OpeningPointError>(e),
    }
}

impl FinalOpeningPointParts {
    /// The canonical final point's coordinates, or why the parts do not fit (see
    /// [`FinalOpeningPointParts::into_canonical`]).
    pub open spec fn spec_canonical(self) -> Result<Seq<Fr>, OpeningPointError> {
        match self {
            FinalOpeningPointParts::DominantPrecommittedAnchor { point } => Ok(point.r@),
            FinalOpeningPointParts::Native {
                r_address_stage7,
                r_cycle_stage6,
                hamming_point,
                log_k_chunk,
            } => {
                let native = hamming_point.r@.skip(log_k_chunk as int);
                let cycle = r_cycle_stage6.r@;
                if cycle.len() < native.len() {
                    Err(OpeningPointError::CycleChallengesTooShort)
                } else if cycle.take(native.len() as int) != native {
                    Err(
                        OpeningPointError::CyclePrefixMismatch {
                            cycle_full_len: r_cycle_stage6.r.len(),
                            native_len: (hamming_point.r.len() - log_k_chunk) as usize,
                        },
                    )
                } else {
                    Ok(cycle.skip(native.len() as int) + r_address_stage7@ + native)
                }
            },
        }
    }

    /// The canonical final point. An anchor is taken as it is. For native openings the
    /// native cycle variables are those of the Hamming point after its first
    /// `log_k_chunk` coordinates; the stage-6 cycle challenges must start with them, and
    /// the point is the remaining stage-6 challenges, then the stage-7 address
    /// challenges, then the native cycle variables.
    #[verifier::loop_isolation(false)]
    pub fn into_canonical(self) -> (r: Result<OpeningPoint<BIG_ENDIAN>, OpeningPointError>)
        requires
            self matches FinalOpeningPointParts::Native { hamming_point, log_k_chunk, .. }
                ==> log_k_chunk <= hamming_point.r.len(),
        ensures
            point_result_is(r, self.spec_canonical()),
    {
        match self {
            FinalOpeningPointParts::DominantPrecommittedAnchor { point } => Ok(point),
            FinalOpeningPointParts::Native {
                r_address_stage7,
                r_cycle_stage6,
                hamming_point,
                log_k_chunk,
            } => {
                let native_cycle = copy_range(&hamming_point.r, log_k_chunk, hamming_point.r.len());
                let ghost native = hamming_point.r@.skip(log_k_chunk as int);
                proof {
                    assert(native_cycle@ =~= native);
                }
                let n = native_cycle.len();
                if r_cycle_stage6.r.len() < n {
                    return Err(OpeningPointError::CycleChallengesTooShort);
                }
                let mut i: usize = 0;
                while i < n
                    invariant
                        n == native_cycle.len(),
                        native_cycle@ == native,
                        native == hamming_point.r@.skip(log_k_chunk as int),
                        log_k_chunk <= hamming_point.r.len(),
                        n == hamming_point.r.len() - log_k_chunk,
                        n <= r_cycle_stage6.r.len(),
                        i <= n,
                        forall|k: int| 0 <= k < i ==> #[trigger] r_cycle_stage6.r@[k] == native_cycle@[k],
                    decreases n - i,
                {
                    let same = r_cycle_stage6.r[i] == native_cycle[i];
                    if !same {
                        proof {
                            assert(native_cycle@[i as int] == native[i as int]);
                            assert(r_cycle_stage6.r@.take(n as int)[i as int] != native[i as int]);

                        }
                        return Err(
                            OpeningPointError::CyclePrefixMismatch {
                                cycle_full_len: r_cycle_stage6.r.len(),
                                native_len: n,
                            },
                        );
                    }
                    i = i + 1;
                }
                proof {
                    assert(r_cycle_stage6.r@.take(n as int) =~= native);
                }
                let cycle_extra = copy_range(&r_cycle_stage6.r, n, r_cycle_stage6.r.len());
                let mut point = cycle_extra;
                let mut k: usize = 0;
                let ghost base = point@;
                while k < r_address_stage7.len()
                    invariant
                        k <= r_address_stage7.len(),
                        point@ == base + r_address_stage7@.take(k as int),
                    decreases r_address_stage7.len() - k,
                {
                    point.push(r_address_stage7[k]);
                    k = k + 1;
                    proof {
                        assert(point@ =~= base + r_address_stage7@.take(k as int));
                    }
                }
                let ghost base2 = point@;
                let mut k: usize = 0;
                while k < n
                    invariant
                        n == native_cycle.len(),
                        k <= n,
                        point@ == base2 + native_cycle@.take(k as int),
                    decreases n - k,
                {
                    point.push(native_cycle[k]);
                    k = k + 1;
                    proof {
                        assert(point@ =~= base2 + native_cycle@.take(k as int));
                    }
                }
                proof {
                    assert(r_address_stage7@.take(r_address_stage7.len() as int) =~= r_address_stage7@);
                    assert(native_cycle@.take(n as int) =~= native_cycle@);
                    assert(r_cycle_stage6.r@.subrange(n as int, r_cycle_stage6.r.len() as int)
                        =~= r_cycle_stage6.r@.skip(n as int));
                }
                Ok(OpeningPoint::new(point))
            },
        }
    }
}

} // verus!
