//! Proof profiles: the tunable side of the proof system and the policy it has
//! to meet.

use core::ops::RangeInclusive;
use vstd::arithmetic::power2::pow2;
use vstd::prelude::*;

verus! {

/// Query bits that a production profile has to reach.
pub const PROD_FRI_OPERATIONAL_FLOOR_BITS: u32 = 60;

/// Revision of the proof system whose verifier the accounting is about.
pub const PLONKY3_SOUNDNESS_REV: &'static str = "11cc5849a1b57a2f520d6edc608b9e516517d841";

/// The model behind the accounting.
pub const FRI_SOUNDNESS_MODEL: &'static str =
    "operational random-words FRI query model; Plonky3 v0.6.2 verifier semantics";

/// Tunable parameters of the proof system.
#[derive(Debug, Clone, Copy)]
pub struct CircuitConfig {
    /// Base-two logarithm of the blowup factor.
    pub log_blowup: u32,
    /// Proof-of-work bits of the challenger.
    pub pow_bits: u32,
    /// Number of queries.
    pub num_queries: u32,
}

/// The parameters of the low-degree test that a configuration stands for.
#[derive(Debug, Clone, Copy)]
pub struct FriSettings {
    pub log_blowup: usize,
    pub log_final_poly_len: usize,
    pub max_log_arity: usize,
    pub num_queries: usize,
    pub commit_proof_of_work_bits: usize,
    pub query_proof_of_work_bits: usize,
}

/// Everything that the accounting of a profile looks at.
#[derive(Debug, Clone, Copy, PartialEq, Eq)]
pub struct FriSoundnessProfile {
    pub log_blowup: u32,
    pub log_final_poly_len: u32,
    pub max_log_arity: u32,
    pub num_queries: u32,
    pub commit_pow_bits: u32,
    pub query_pow_bits: u32,
    pub cap_height: u32,
    pub constraint_degree: u32,
    pub log_trace_height: u32,
}

/// Why a profile is refused.
#[derive(Debug, Clone, Copy, PartialEq, Eq)]
pub enum FriSoundnessError {
    /// A field that must not be zero is zero.
    ZeroField(&'static str),
    /// The constraints do not fit the blowup.
    DegreeExceedsBlowup { constraint_degree: u32, log_blowup: u32 },
    /// The trace is too short for the final polynomial.
    TraceTooShort { log_trace_height: u32, log_final_poly_len: u32, log_blowup: u32 },
    /// The folding arity exceeds what is left to fold.
    FoldArityTooLarge { max_log_arity: u32, remaining_log_domain: u32 },
    /// The commitment cap is higher than the commitment.
    CapHeightTooLarge { cap_height: u32, log_commitment_height: u32 },
    /// The profile has too few query bits.
    OperationalFloor { bits: u32, floor: u32 },
}

/// The smallest exponent whose power of two is at least `n`.
pub open spec fn is_ceil_log2(n: nat, k: nat) -> bool {
    pow2(k) >= n && forall|j: nat| j < k ==> #[trigger] pow2(j) < n
}

/// Some power of two is at least `n` and fits `usize`.
pub open spec fn rounds_up(n: nat) -> bool {
    exists|k: nat| n <= #[trigger] pow2(k) <= usize::MAX
}

/// The smallest exponent whose power of two is at least `n`.
fn ceil_log2(n: usize) -> (k: u32)
    requires
        rounds_up(n as nat),
    ensures
        is_ceil_log2(n as nat, k as nat),
        k < 64,
{
    let mut k: u32 = 0;
    let mut power: usize = 1;
    proof {
        vstd::arithmetic::power2::lemma2_to64();
        vstd::arithmetic::power2::lemma2_to64_rest();
    }
    while power < n
        invariant
            rounds_up(n as nat),
            power >= 1,
            power == pow2(k as nat),
            k < 64,
            forall|j: nat| j < k ==> #[trigger] pow2(j) < n,
            pow2(64) == 0x1_0000_0000_0000_0000,
        decreases if power < n { n - power } else { 0 },
    {
        proof {
            let top = choose|t: nat| n <= #[trigger] pow2(t) <= usize::MAX;
            if top <= k {
                if top < k {
                    vstd::arithmetic::power2::lemma_pow2_strictly_increases(top, k as nat);
                }
                assert(false);
            }
            vstd::arithmetic::power2::lemma_pow2_unfold((k + 1) as nat);
            assert(pow2((k + 1) as nat) == 2 * power);
            if top > k + 1 {
                vstd::arithmetic::power2::lemma_pow2_strictly_increases((k + 1) as nat, top);
            }
            assert(2 * power <= usize::MAX);
            if k + 1 >= 64 {
                assert(k + 1 == 64);
            }
        }
        power = power * 2;
        k = k + 1;
    }
    k
}

impl FriSoundnessProfile {
    /// The profile of a configuration for constraints of a given degree over a
    /// trace of a given length, rounded up to a power of two: binary folding
    /// down to a constant, no commitment cap.
    pub fn from_circuit_config(
        config: CircuitConfig,
        constraint_degree: u32,
        trace_len: usize,
    ) -> (r: Self)
        requires
            rounds_up(trace_len as nat),
        ensures
            r.constraint_degree == constraint_degree,
            is_ceil_log2(trace_len as nat, r.log_trace_height as nat),
            r.log_trace_height < 64,
            r.of_config(config),
    {
        FriSoundnessProfile {
            log_blowup: config.log_blowup,
            log_final_poly_len: 0,
            max_log_arity: 1,
            num_queries: config.num_queries,
            commit_pow_bits: config.pow_bits,
            query_pow_bits: config.pow_bits,
            cap_height: 0,
            constraint_degree,
            log_trace_height: ceil_log2(trace_len),
        }
    }

    /// The profile folds in pairs down to a constant, has no commitment cap,
    /// and takes the rest from a configuration.
    pub open spec fn of_config(self, config: CircuitConfig) -> bool {
        &&& self.log_blowup == config.log_blowup
        &&& self.log_final_poly_len == 0
        &&& self.max_log_arity == 1
        &&& self.num_queries == config.num_queries
        &&& self.commit_pow_bits == config.pow_bits
        &&& self.query_pow_bits == config.pow_bits
        &&& self.cap_height == 0
    }

    /// The query bits of the profile, as an integer.
    pub open spec fn bits(self) -> int {
        self.log_blowup * self.num_queries + self.query_pow_bits
    }

    /// The query bits of the profile: `log_blowup` for each query, and the
    /// proof-of-work bits at query time. Those at commit time do not count.
    pub fn operational_bits(self) -> (r: u32)
        requires
            self.bits() <= u32::MAX,
        ensures
            r == self.bits(),
    {
        assert(self.log_blowup * self.num_queries <= u32::MAX);
        self.log_blowup * self.num_queries + self.query_pow_bits
    }

    /// A field that must not be zero is zero.
    pub open spec fn has_zero_field(self) -> bool {
        self.log_blowup == 0 || self.max_log_arity == 0 || self.num_queries == 0
            || self.constraint_degree == 0 || self.log_trace_height == 0
    }

    /// The constraints fit the blowup.
    pub open spec fn degree_fits(self) -> bool {
        self.constraint_degree <= pow2(self.log_blowup as nat)
    }

    /// The trace is long enough for the final polynomial.
    pub open spec fn trace_fits(self) -> bool {
        self.log_trace_height > self.log_final_poly_len + self.log_blowup
    }

    /// The height of the commitments, as a base-two logarithm.
    pub open spec fn log_commitment_height(self) -> int {
        self.log_trace_height + self.log_blowup
    }

    /// The commitment cap fits the commitments.
    pub open spec fn cap_fits(self) -> bool {
        self.cap_height <= self.log_commitment_height()
    }

    /// The folding arity fits what is left to fold.
    pub open spec fn arity_fits(self) -> bool {
        self.max_log_arity <= self.log_commitment_height() - self.log_final_poly_len
    }

    /// The profile meets every condition and reaches the floor.
    pub open spec fn admissible(self, floor_bits: u32) -> bool {
        &&& !self.has_zero_field()
        &&& self.degree_fits()
        &&& self.trace_fits()
        &&& self.cap_fits()
        &&& self.arity_fits()
        &&& self.bits() >= floor_bits
    }

    /// The numbers that a check of the profile computes fit their words, as
    /// far as the check gets.
    pub open spec fn computable(self) -> bool {
        self.has_zero_field() || (self.log_blowup < 32 && (!self.degree_fits() || (
        self.log_final_poly_len + self.log_blowup <= u32::MAX && (!self.trace_fits() || (
        self.log_commitment_height() <= u32::MAX && (!self.cap_fits() || !self.arity_fits()
            || self.bits() <= u32::MAX))))))
    }

    /// Checks the profile against every condition and the floor, in order.
    pub fn validate(self, floor_bits: u32) -> (r: Result<(), FriSoundnessError>)
        requires
            self.computable(),
        ensures
            r is Ok <==> self.admissible(floor_bits),
            self.log_blowup == 0 ==> (r matches Err(FriSoundnessError::ZeroField(name)) && name@
                == "log_blowup"@),
            self.log_blowup != 0 && self.max_log_arity == 0 ==> (r matches Err(
                FriSoundnessError::ZeroField(name),
            ) && name@ == "max_log_arity"@),
            self.log_blowup != 0 && self.max_log_arity != 0 && self.num_queries == 0 ==> (
            r matches Err(FriSoundnessError::ZeroField(name)) && name@ == "num_queries"@),
            self.log_blowup != 0 && self.max_log_arity != 0 && self.num_queries != 0
                && self.constraint_degree == 0 ==> (r matches Err(
                FriSoundnessError::ZeroField(name),
            ) && name@ == "constraint_degree"@),
            self.log_blowup != 0 && self.max_log_arity != 0 && self.num_queries != 0
                && self.constraint_degree != 0 && self.log_trace_height == 0 ==> (r matches Err(
                FriSoundnessError::ZeroField(name),
            ) && name@ == "log_trace_height"@),
            !self.has_zero_field() && !self.degree_fits() ==> r == Err::<(), FriSoundnessError>(
                FriSoundnessError::DegreeExceedsBlowup {
                    constraint_degree: self.constraint_degree,
                    log_blowup: self.log_blowup,
                },
            ),
            !self.has_zero_field() && self.degree_fits() && !self.trace_fits() ==> r == Err::<
                (),
                FriSoundnessError,
            >(
                FriSoundnessError::TraceTooShort {
                    log_trace_height: self.log_trace_height,
                    log_final_poly_len: self.log_final_poly_len,
                    log_blowup: self.log_blowup,
                },
            ),
            !self.has_zero_field() && self.degree_fits() && self.trace_fits() && !self.cap_fits()
                ==> r == Err::<(), FriSoundnessError>(
                FriSoundnessError::CapHeightTooLarge {
                    cap_height: self.cap_height,
                    log_commitment_height: self.log_commitment_height() as u32,
                },
            ),
            !self.has_zero_field() && self.degree_fits() && self.trace_fits() && self.cap_fits()
                && !self.arity_fits() ==> r == Err::<(), FriSoundnessError>(
                FriSoundnessError::FoldArityTooLarge {
                    max_log_arity: self.max_log_arity,
                    remaining_log_domain: (self.log_commitment_height()
                        - self.log_final_poly_len) as u32,
                },
            ),
            !self.has_zero_field() && self.degree_fits() && self.trace_fits() && self.cap_fits()
                && self.arity_fits() && self.bits() < floor_bits ==> r == Err::<
                (),
                FriSoundnessError,
            >(
                FriSoundnessError::OperationalFloor { bits: self.bits() as u32, floor: floor_bits },
            ),
    {
        if self.log_blowup == 0 {
            return Err(FriSoundnessError::ZeroField("log_blowup"));
        }
        if self.max_log_arity == 0 {
            return Err(FriSoundnessError::ZeroField("max_log_arity"));
        }
        if self.num_queries == 0 {
            return Err(FriSoundnessError::ZeroField("num_queries"));
        }
        if self.constraint_degree == 0 {
            return Err(FriSoundnessError::ZeroField("constraint_degree"));
        }
        if self.log_trace_height == 0 {
            return Err(FriSoundnessError::ZeroField("log_trace_height"));
        }
        proof {
            vstd::arithmetic::power2::lemma2_to64();
            if self.log_blowup < 31 {
                vstd::arithmetic::power2::lemma_pow2_strictly_increases(
                    self.log_blowup as nat,
                    31,
                );
            }
            vstd::bits::lemma_u32_shl_is_mul(1, self.log_blowup);
        }
        if self.constraint_degree > (1u32 << self.log_blowup) {
            return Err(
                FriSoundnessError::DegreeExceedsBlowup {
                    constraint_degree: self.constraint_degree,
                    log_blowup: self.log_blowup,
                },
            );
        }
        if self.log_trace_height <= self.log_final_poly_len + self.log_blowup {
            return Err(
                FriSoundnessError::TraceTooShort {
                    log_trace_height: self.log_trace_height,
                    log_final_poly_len: self.log_final_poly_len,
                    log_blowup: self.log_blowup,
                },
            );
        }
        let log_commitment_height: u32 = self.log_trace_height + self.log_blowup;
        if self.cap_height > log_commitment_height {
            return Err(
                FriSoundnessError::CapHeightTooLarge {
                    cap_height: self.cap_height,
                    log_commitment_height,
                },
            );
        }
        let remaining_log_domain: u32 = log_commitment_height - self.log_final_poly_len;
        if self.max_log_arity > remaining_log_domain {
            return Err(
                FriSoundnessError::FoldArityTooLarge {
                    max_log_arity: self.max_log_arity,
                    remaining_log_domain,
                },
            );
        }
        let bits: u32 = self.operational_bits();
        if bits < floor_bits {
            return Err(FriSoundnessError::OperationalFloor { bits, floor: floor_bits });
        }
        Ok(())
    }
}

/// The space that a search for profiles runs through.
#[derive(Debug, PartialEq, Eq)]
pub struct FriProfileSearch {
    pub log_blowup: RangeInclusive<u32>,
    pub log_final_poly_len: RangeInclusive<u32>,
    pub max_log_arity: RangeInclusive<u32>,
    pub num_queries: RangeInclusive<u32>,
    pub cap_height: RangeInclusive<u32>,
    pub constraint_degree: u32,
    pub log_trace_height: u32,
    pub floor_bits: u32,
}

/// `core::ops::RangeInclusive::start`: the lower bound of the range.
pub assume_specification<Idx>[ RangeInclusive::<Idx>::start ](r: &RangeInclusive<Idx>) -> (v: &Idx)
    ensures
        *v == r@.start,
;

/// `core::ops::RangeInclusive::end`: the upper bound of the range.
pub assume_specification<Idx>[ RangeInclusive::<Idx>::end ](r: &RangeInclusive<Idx>) -> (v: &Idx)
    ensures
        *v == r@.end,
;

/// A range contains a value.
pub open spec fn in_range(r: RangeInclusive<u32>, x: int) -> bool {
    r@.start <= x && if r@.exhausted {
        x < r@.end
    } else {
        x <= r@.end
    }
}

/// Tests whether a range contains a value.
fn range_contains(r: &RangeInclusive<u32>, x: u32) -> (b: bool)
    ensures
        b == in_range(*r, x as int),
{
    r.contains(&x)
}

impl FriProfileSearch {
    /// A profile of the search space.
    pub open spec fn profile(self, b: u32, l: u32, a: u32, q: u32, c: u32) -> FriSoundnessProfile {
        FriSoundnessProfile {
            log_blowup: b,
            log_final_poly_len: l,
            max_log_arity: a,
            num_queries: q,
            commit_pow_bits: 0,
            query_pow_bits: 0,
            cap_height: c,
            constraint_degree: self.constraint_degree,
            log_trace_height: self.log_trace_height,
        }
    }

    /// A profile lies in the search space.
    pub open spec fn covers(self, p: FriSoundnessProfile) -> bool {
        &&& p == self.profile(
            p.log_blowup,
            p.log_final_poly_len,
            p.max_log_arity,
            p.num_queries,
            p.cap_height,
        )
        &&& in_range(self.log_blowup, p.log_blowup as int)
        &&& in_range(self.log_final_poly_len, p.log_final_poly_len as int)
        &&& in_range(self.max_log_arity, p.max_log_arity as int)
        &&& in_range(self.num_queries, p.num_queries as int)
        &&& in_range(self.cap_height, p.cap_height as int)
    }

    /// The admissible profiles from a cap height on.
    pub open spec fn from_cap(self, b: u32, l: u32, a: u32, q: u32, c: int) -> Seq<
        FriSoundnessProfile,
    >
        decreases u32::MAX + 1 - c,
    {
        if !(0 <= c <= u32::MAX) || !in_range(self.cap_height, c) {
            Seq::empty()
        } else {
            let p = self.profile(b, l, a, q, c as u32);
            (if p.admissible(self.floor_bits) {
                seq![p]
            } else {
                Seq::empty()
            }) + self.from_cap(b, l, a, q, c + 1)
        }
    }

    /// The admissible profiles from a number of queries on.
    pub open spec fn from_queries(self, b: u32, l: u32, a: u32, q: int) -> Seq<FriSoundnessProfile>
        decreases u32::MAX + 1 - q,
    {
        if !(0 <= q <= u32::MAX) || !in_range(self.num_queries, q) {
            Seq::empty()
        } else {
            self.from_cap(b, l, a, q as u32, self.cap_height@.start as int) + self.from_queries(
                b,
                l,
                a,
                q + 1,
            )
        }
    }

    /// The admissible profiles from a folding arity on.
    pub open spec fn from_arity(self, b: u32, l: u32, a: int) -> Seq<FriSoundnessProfile>
        decreases u32::MAX + 1 - a,
    {
        if !(0 <= a <= u32::MAX) || !in_range(self.max_log_arity, a) {
            Seq::empty()
        } else {
            self.from_queries(b, l, a as u32, self.num_queries@.start as int) + self.from_arity(
                b,
                l,
                a + 1,
            )
        }
    }

    /// The admissible profiles from a final length on.
    pub open spec fn from_final(self, b: u32, l: int) -> Seq<FriSoundnessProfile>
        decreases u32::MAX + 1 - l,
    {
        if !(0 <= l <= u32::MAX) || !in_range(self.log_final_poly_len, l) {
            Seq::empty()
        } else {
            self.from_arity(b, l as u32, self.max_log_arity@.start as int) + self.from_final(
                b,
                l + 1,
            )
        }
    }

    /// The admissible profiles from a blowup on.
    pub open spec fn from_blowup(self, b: int) -> Seq<FriSoundnessProfile>
        decreases u32::MAX + 1 - b,
    {
        if !(0 <= b <= u32::MAX) || !in_range(self.log_blowup, b) {
            Seq::empty()
        } else {
            self.from_final(b as u32, self.log_final_poly_len@.start as int) + self.from_blowup(
                b + 1,
            )
        }
    }

    /// The admissible profiles of the search space, ordered by blowup, final
    /// length, arity, queries and cap height.
    pub open spec fn admissible(self) -> Seq<FriSoundnessProfile> {
        self.from_blowup(self.log_blowup@.start as int)
    }

    /// Every profile of the search space can be checked.
    pub open spec fn computable(self) -> bool {
        forall|p: FriSoundnessProfile| #[trigger] self.covers(p) ==> p.computable()
    }
}

/// The admissible profiles from a cap height on.
proof fn lemma_in_cap(
    s: FriProfileSearch,
    b: u32,
    l: u32,
    a: u32,
    q: u32,
    c: int,
    p: FriSoundnessProfile,
)
    requires
        s.cap_height@.start <= c,
    ensures
        s.from_cap(b, l, a, q, c).contains(p) <==> (p == s.profile(b, l, a, q, p.cap_height)
            && p.cap_height >= c && in_range(s.cap_height, p.cap_height as int) && p.admissible(
            s.floor_bits,
        )),
    decreases u32::MAX + 1 - c,
{
    if 0 <= c <= u32::MAX && in_range(s.cap_height, c) {
        lemma_in_cap(s, b, l, a, q, c + 1, p);
        let head = s.profile(b, l, a, q, c as u32);
        let first = if head.admissible(s.floor_bits) {
            seq![head]
        } else {
            Seq::empty()
        };
        lemma_contains_concat(first, s.from_cap(b, l, a, q, c + 1), p);
        assert(first.contains(p) <==> (p == head && head.admissible(s.floor_bits))) by {
            if head.admissible(s.floor_bits) {
                assert(first[0] == head);
            }
        }
    }
}

/// Membership in a concatenation.
proof fn lemma_contains_concat(
    x: Seq<FriSoundnessProfile>,
    y: Seq<FriSoundnessProfile>,
    p: FriSoundnessProfile,
)
    ensures
        (x + y).contains(p) <==> x.contains(p) || y.contains(p),
{
    if x.contains(p) {
        let i = choose|i: int| 0 <= i < x.len() && x[i] == p;
        assert((x + y)[i] == p);
    }
    if y.contains(p) {
        let i = choose|i: int| 0 <= i < y.len() && y[i] == p;
        assert((x + y)[x.len() + i] == p);
    }
    if (x + y).contains(p) {
        let i = choose|i: int| 0 <= i < (x + y).len() && (x + y)[i] == p;
        if i < x.len() {
            assert(x[i] == p);
        } else {
            assert(y[i - x.len()] == p);
        }
    }
}

/// The admissible profiles from a number of queries on.
proof fn lemma_in_queries(
    s: FriProfileSearch,
    b: u32,
    l: u32,
    a: u32,
    q: int,
    p: FriSoundnessProfile,
)
    requires
        s.num_queries@.start <= q,
    ensures
        s.from_queries(b, l, a, q).contains(p) <==> (p == s.profile(
            b,
            l,
            a,
            p.num_queries,
            p.cap_height,
        ) && p.num_queries >= q && in_range(s.num_queries, p.num_queries as int) && in_range(
            s.cap_height,
            p.cap_height as int,
        ) && p.admissible(s.floor_bits)),
    decreases u32::MAX + 1 - q,
{
    if 0 <= q <= u32::MAX && in_range(s.num_queries, q) {
        lemma_in_queries(s, b, l, a, q + 1, p);
        let start = s.cap_height@.start as int;
        lemma_in_cap(s, b, l, a, q as u32, start, p);
        lemma_contains_concat(
            s.from_cap(b, l, a, q as u32, start),
            s.from_queries(b, l, a, q + 1),
            p,
        );
    }
}

/// The admissible profiles from a folding arity on.
proof fn lemma_in_arity(s: FriProfileSearch, b: u32, l: u32, a: int, p: FriSoundnessProfile)
    requires
        s.max_log_arity@.start <= a,
    ensures
        s.from_arity(b, l, a).contains(p) <==> (p == s.profile(
            b,
            l,
            p.max_log_arity,
            p.num_queries,
            p.cap_height,
        ) && p.max_log_arity >= a && in_range(s.max_log_arity, p.max_log_arity as int) && in_range(
            s.num_queries,
            p.num_queries as int,
        ) && in_range(s.cap_height, p.cap_height as int) && p.admissible(s.floor_bits)),
    decreases u32::MAX + 1 - a,
{
    if 0 <= a <= u32::MAX && in_range(s.max_log_arity, a) {
        lemma_in_arity(s, b, l, a + 1, p);
        let start = s.num_queries@.start as int;
        lemma_in_queries(s, b, l, a as u32, start, p);
        lemma_contains_concat(
            s.from_queries(b, l, a as u32, start),
            s.from_arity(b, l, a + 1),
            p,
        );
    }
}

/// The admissible profiles from a final length on.
proof fn lemma_in_final(s: FriProfileSearch, b: u32, l: int, p: FriSoundnessProfile)
    requires
        s.log_final_poly_len@.start <= l,
    ensures
        s.from_final(b, l).contains(p) <==> (p == s.profile(
            b,
            p.log_final_poly_len,
            p.max_log_arity,
            p.num_queries,
            p.cap_height,
        ) && p.log_final_poly_len >= l && in_range(
            s.log_final_poly_len,
            p.log_final_poly_len as int,
        ) && in_range(s.max_log_arity, p.max_log_arity as int) && in_range(
            s.num_queries,
            p.num_queries as int,
        ) && in_range(s.cap_height, p.cap_height as int) && p.admissible(s.floor_bits)),
    decreases u32::MAX + 1 - l,
{
    if 0 <= l <= u32::MAX && in_range(s.log_final_poly_len, l) {
        lemma_in_final(s, b, l + 1, p);
        let start = s.max_log_arity@.start as int;
        lemma_in_arity(s, b, l as u32, start, p);
        lemma_contains_concat(s.from_arity(b, l as u32, start), s.from_final(b, l + 1), p);
    }
}

/// The admissible profiles from a blowup on.
proof fn lemma_in_blowup(s: FriProfileSearch, b: int, p: FriSoundnessProfile)
    requires
        s.log_blowup@.start <= b,
    ensures
        s.from_blowup(b).contains(p) <==> (s.covers(p) && p.log_blowup >= b && p.admissible(
            s.floor_bits,
        )),
    decreases u32::MAX + 1 - b,
{
    if 0 <= b <= u32::MAX && in_range(s.log_blowup, b) {
        lemma_in_blowup(s, b + 1, p);
        let start = s.log_final_poly_len@.start as int;
        lemma_in_final(s, b as u32, start, p);
        lemma_contains_concat(s.from_final(b as u32, start), s.from_blowup(b + 1), p);
    }
}

/// A search yields exactly the profiles of its space that are admissible.
pub proof fn search_is_exhaustive(search: FriProfileSearch, p: FriSoundnessProfile)
    ensures
        search.admissible().contains(p) <==> search.covers(p) && p.admissible(search.floor_bits),
{
    lemma_in_blowup(search, search.log_blowup@.start as int, p);
}

/// Appends the admissible profiles of one row of the search.
fn collect_caps(
    search: &FriProfileSearch,
    b: u32,
    l: u32,
    a: u32,
    q: u32,
    out: &mut Vec<FriSoundnessProfile>,
)
    requires
        search.computable(),
        in_range(search.log_blowup, b as int),
        in_range(search.log_final_poly_len, l as int),
        in_range(search.max_log_arity, a as int),
        in_range(search.num_queries, q as int),
    ensures
        final(out)@ == old(out)@ + search.from_cap(b, l, a, q, search.cap_height@.start as int),
{
    let mut c: u32 = *search.cap_height.start();
    let end: u32 = *search.cap_height.end();
    let ghost all = search.from_cap(b, l, a, q, c as int);
    while range_contains(&search.cap_height, c)
        invariant
            search.computable(),
            in_range(search.log_blowup, b as int),
            in_range(search.log_final_poly_len, l as int),
            in_range(search.max_log_arity, a as int),
            in_range(search.num_queries, q as int),
            search.cap_height@.start <= c,
            end == search.cap_height@.end,
            all == search.from_cap(b, l, a, q, search.cap_height@.start as int),
            old(out)@ + all == out@ + search.from_cap(b, l, a, q, c as int),
        decreases u32::MAX - c,
    {
        let profile = FriSoundnessProfile {
            log_blowup: b,
            log_final_poly_len: l,
            max_log_arity: a,
            num_queries: q,
            commit_pow_bits: 0,
            query_pow_bits: 0,
            cap_height: c,
            constraint_degree: search.constraint_degree,
            log_trace_height: search.log_trace_height,
        };
        assert(search.covers(profile));
        let ghost before = out@;
        if profile.validate(search.floor_bits).is_ok() {
            out.push(profile);
        }
        proof {
            let rest = search.from_cap(b, l, a, q, c + 1);
            if profile.admissible(search.floor_bits) {
                assert(before + (seq![profile] + rest) =~= out@ + rest);
            } else {
                assert(before + (Seq::empty() + rest) =~= out@ + rest);
            }
        }
        if c == end {
            assert(search.from_cap(b, l, a, q, c + 1) =~= Seq::empty());
            assert(out@ + Seq::empty() =~= out@);
            return;
        }
        c = c + 1;
    }
    assert(out@ + Seq::empty() =~= out@);
}

/// Appends the admissible profiles of one plane of the search.
fn collect_queries(
    search: &FriProfileSearch,
    b: u32,
    l: u32,
    a: u32,
    out: &mut Vec<FriSoundnessProfile>,
)
    requires
        search.computable(),
        in_range(search.log_blowup, b as int),
        in_range(search.log_final_poly_len, l as int),
        in_range(search.max_log_arity, a as int),
    ensures
        final(out)@ == old(out)@ + search.from_queries(b, l, a, search.num_queries@.start as int),
{
    let mut q: u32 = *search.num_queries.start();
    let end: u32 = *search.num_queries.end();
    let ghost all = search.from_queries(b, l, a, q as int);
    while range_contains(&search.num_queries, q)
        invariant
            search.computable(),
            in_range(search.log_blowup, b as int),
            in_range(search.log_final_poly_len, l as int),
            in_range(search.max_log_arity, a as int),
            search.num_queries@.start <= q,
            end == search.num_queries@.end,
            all == search.from_queries(b, l, a, search.num_queries@.start as int),
            old(out)@ + all == out@ + search.from_queries(b, l, a, q as int),
        decreases u32::MAX - q,
    {
        let ghost before = out@;
        collect_caps(search, b, l, a, q, out);
        proof {
            let part = search.from_cap(b, l, a, q, search.cap_height@.start as int);
            let rest = search.from_queries(b, l, a, q + 1);
            assert(before + (part + rest) =~= out@ + rest);
        }
        if q == end {
            assert(search.from_queries(b, l, a, q + 1) =~= Seq::empty());
            assert(out@ + Seq::empty() =~= out@);
            return;
        }
        q = q + 1;
    }
    assert(out@ + Seq::empty() =~= out@);
}

/// Appends the admissible profiles with a given blowup and final length.
fn collect_arities(search: &FriProfileSearch, b: u32, l: u32, out: &mut Vec<FriSoundnessProfile>)
    requires
        search.computable(),
        in_range(search.log_blowup, b as int),
        in_range(search.log_final_poly_len, l as int),
    ensures
        final(out)@ == old(out)@ + search.from_arity(b, l, search.max_log_arity@.start as int),
{
    let mut a: u32 = *search.max_log_arity.start();
    let end: u32 = *search.max_log_arity.end();
    let ghost all = search.from_arity(b, l, a as int);
    while range_contains(&search.max_log_arity, a)
        invariant
            search.computable(),
            in_range(search.log_blowup, b as int),
            in_range(search.log_final_poly_len, l as int),
            search.max_log_arity@.start <= a,
            end == search.max_log_arity@.end,
            all == search.from_arity(b, l, search.max_log_arity@.start as int),
            old(out)@ + all == out@ + search.from_arity(b, l, a as int),
        decreases u32::MAX - a,
    {
        let ghost before = out@;
        collect_queries(search, b, l, a, out);
        proof {
            let part = search.from_queries(b, l, a, search.num_queries@.start as int);
            let rest = search.from_arity(b, l, a + 1);
            assert(before + (part + rest) =~= out@ + rest);
        }
        if a == end {
            assert(search.from_arity(b, l, a + 1) =~= Seq::empty());
            assert(out@ + Seq::empty() =~= out@);
            return;
        }
        a = a + 1;
    }
    assert(out@ + Seq::empty() =~= out@);
}

/// Appends the admissible profiles with a given blowup.
fn collect_finals(search: &FriProfileSearch, b: u32, out: &mut Vec<FriSoundnessProfile>)
    requires
        search.computable(),
        in_range(search.log_blowup, b as int),
    ensures
        final(out)@ == old(out)@ + search.from_final(b, search.log_final_poly_len@.start as int),
{
    let mut l: u32 = *search.log_final_poly_len.start();
    let end: u32 = *search.log_final_poly_len.end();
    let ghost all = search.from_final(b, l as int);
    while range_contains(&search.log_final_poly_len, l)
        invariant
            search.computable(),
            in_range(search.log_blowup, b as int),
            search.log_final_poly_len@.start <= l,
            end == search.log_final_poly_len@.end,
            all == search.from_final(b, search.log_final_poly_len@.start as int),
            old(out)@ + all == out@ + search.from_final(b, l as int),
        decreases u32::MAX - l,
    {
        let ghost before = out@;
        collect_arities(search, b, l, out);
        proof {
            let part = search.from_arity(b, l, search.max_log_arity@.start as int);
            let rest = search.from_final(b, l + 1);
            assert(before + (part + rest) =~= out@ + rest);
        }
        if l == end {
            assert(search.from_final(b, l + 1) =~= Seq::empty());
            assert(out@ + Seq::empty() =~= out@);
            return;
        }
        l = l + 1;
    }
    assert(out@ + Seq::empty() =~= out@);
}

/// The profiles of a search space that meet every condition and reach the
/// floor, ordered by blowup, final length, arity, queries and cap height.
pub fn admissible_fri_profiles(search: FriProfileSearch) -> (out: Vec<FriSoundnessProfile>)
    requires
        search.computable(),
    ensures
        out@ == search.admissible(),
{
    let mut out: Vec<FriSoundnessProfile> = Vec::new();
    let mut b: u32 = *search.log_blowup.start();
    let end: u32 = *search.log_blowup.end();
    assert(out@ + search.from_blowup(b as int) =~= search.from_blowup(b as int));
    while range_contains(&search.log_blowup, b)
        invariant
            search.computable(),
            search.log_blowup@.start <= b,
            end == search.log_blowup@.end,
            search.admissible() == out@ + search.from_blowup(b as int),
        decreases u32::MAX - b,
    {
        let ghost before = out@;
        collect_finals(&search, b, &mut out);
        proof {
            let part = search.from_final(b, search.log_final_poly_len@.start as int);
            let rest = search.from_blowup(b + 1);
            assert(before + (part + rest) =~= out@ + rest);
        }
        if b == end {
            assert(search.from_blowup(b + 1) =~= Seq::empty());
            assert(out@ + Seq::empty() =~= out@);
            return out;
        }
        b = b + 1;
    }
    assert(out@ + Seq::empty() =~= out@);
    out
}

impl CircuitConfig {
    /// A configuration.
    pub open spec fn make(log_blowup: u32, pow_bits: u32, num_queries: u32) -> CircuitConfig {
        CircuitConfig { log_blowup, pow_bits, num_queries }
    }

    /// The query bits of the configuration, as an integer.
    pub open spec fn bits(self) -> int {
        self.log_blowup * self.num_queries + self.pow_bits
    }

    /// The query bits of the configuration.
    pub fn operational_fri_bits(self) -> (r: u32)
        requires
            self.bits() <= u32::MAX,
        ensures
            r == self.bits(),
    {
        assert(self.log_blowup * self.num_queries <= u32::MAX);
        self.log_blowup * self.num_queries + self.pow_bits
    }

    /// The parameters of the low-degree test: binary folding down to a
    /// constant, the proof-of-work bits at commit and at query time.
    pub fn fri_settings(&self) -> (r: FriSettings)
        ensures
            r.log_blowup == self.log_blowup,
            r.log_final_poly_len == 0,
            r.max_log_arity == 1,
            r.num_queries == self.num_queries,
            r.commit_proof_of_work_bits == self.pow_bits,
            r.query_proof_of_work_bits == self.pow_bits,
    {
        FriSettings {
            log_blowup: self.log_blowup as usize,
            log_final_poly_len: 0,
            max_log_arity: 1,
            num_queries: self.num_queries as usize,
            commit_proof_of_work_bits: self.pow_bits as usize,
            query_proof_of_work_bits: self.pow_bits as usize,
        }
    }

    /// The production profile: few queries, large blowup.
    pub fn prod() -> (r: Self)
        ensures
            r == Self::make(4, 0, 15),
            r.bits() == PROD_FRI_OPERATIONAL_FLOOR_BITS,
    {
        CircuitConfig { log_blowup: 4, pow_bits: 0, num_queries: 15 }
    }

    /// The production profile for long traces: more queries, small blowup.
    pub fn prod_lb2_nq30() -> (r: Self)
        ensures
            r == Self::make(2, 0, 30),
            r.bits() == PROD_FRI_OPERATIONAL_FLOOR_BITS,
    {
        CircuitConfig { log_blowup: 2, pow_bits: 0, num_queries: 30 }
    }

    /// The production profile for a trace of `2^k` rows.
    pub open spec fn adaptive(k: nat) -> CircuitConfig {
        if k >= 15 {
            Self::make(2, 0, 30)
        } else {
            Self::make(4, 0, 15)
        }
    }

    /// The production profile for a trace of `2^stark_degree_bits` rows. Both
    /// choices have exactly the floor's query bits.
    pub fn prod_adaptive(stark_degree_bits: usize) -> (r: Self)
        ensures
            r == Self::adaptive(stark_degree_bits as nat),
            r.bits() == PROD_FRI_OPERATIONAL_FLOOR_BITS,
    {
        if stark_degree_bits >= 15 {
            Self::prod_lb2_nq30()
        } else {
            Self::prod()
        }
    }

    /// The production profile for a trace of `trace_len` rows, rounded up to a
    /// power of two.
    pub fn for_layer0_trace(trace_len: usize) -> (r: Self)
        requires
            rounds_up(trace_len as nat),
        ensures
            exists|k: nat| #[trigger]
                is_ceil_log2(trace_len as nat, k) && r == Self::adaptive(k),
            r.bits() == PROD_FRI_OPERATIONAL_FLOOR_BITS,
    {
        let degree_bits: u32 = ceil_log2(trace_len);
        Self::prod_adaptive(degree_bits as usize)
    }

    /// A small profile for quick round trips.
    pub fn test() -> (r: Self)
        ensures
            r == Self::make(1, 0, 8),
    {
        CircuitConfig { log_blowup: 1, pow_bits: 0, num_queries: 8 }
    }

    /// Ninety query bits at a blowup of four.
    pub fn prod_lb2() -> (r: Self)
        ensures
            r == Self::make(2, 0, 45),
            r.bits() == 90,
    {
        CircuitConfig { log_blowup: 2, pow_bits: 0, num_queries: 45 }
    }

    /// Ninety-two query bits at a blowup of sixteen.
    pub fn prod_lb4() -> (r: Self)
        ensures
            r == Self::make(4, 0, 23),
            r.bits() == 92,
    {
        CircuitConfig { log_blowup: 4, pow_bits: 0, num_queries: 23 }
    }

    /// Ninety query bits at a blowup of thirty-two.
    pub fn prod_lb5() -> (r: Self)
        ensures
            r == Self::make(5, 0, 18),
            r.bits() == 90,
    {
        CircuitConfig { log_blowup: 5, pow_bits: 0, num_queries: 18 }
    }

    /// Ninety query bits at a blowup of sixty-four.
    pub fn prod_lb6() -> (r: Self)
        ensures
            r == Self::make(6, 0, 15),
            r.bits() == 90,
    {
        CircuitConfig { log_blowup: 6, pow_bits: 0, num_queries: 15 }
    }

    /// A small profile whose blowup admits constraints of degree four.
    pub fn test_pearl() -> (r: Self)
        ensures
            r == Self::make(2, 0, 16),
    {
        CircuitConfig { log_blowup: 2, pow_bits: 0, num_queries: 16 }
    }
}

/// Proof-of-work bits at commit time buy nothing: profiles that differ in them
/// alone have the same query bits and the same verdict at every floor.
pub proof fn commit_pow_does_not_count(
    a: FriSoundnessProfile,
    b: FriSoundnessProfile,
    floor_bits: u32,
)
    requires
        a == (FriSoundnessProfile { commit_pow_bits: a.commit_pow_bits, ..b }),
    ensures
        a.bits() == b.bits(),
        a.admissible(floor_bits) <==> b.admissible(floor_bits),
        a.computable() <==> b.computable(),
{
}

/// Each proof-of-work bit at query time adds one query bit, each query adds as
/// many as the blowup has bits, and a profile without proof of work has the
/// product alone.
pub proof fn query_bits_add_up(a: FriSoundnessProfile, b: FriSoundnessProfile)
    requires
        a == (FriSoundnessProfile {
            num_queries: a.num_queries,
            query_pow_bits: a.query_pow_bits,
            ..b
        }),
    ensures
        a.bits() - b.bits() == a.log_blowup * (a.num_queries - b.num_queries) + (a.query_pow_bits
            - b.query_pow_bits),
        a.num_queries == 0 && a.query_pow_bits == 0 ==> a.bits() == 0,
        a.query_pow_bits == 0 ==> a.bits() == a.num_queries * a.log_blowup,
{
    assert(a.log_blowup * (a.num_queries - b.num_queries) == a.log_blowup * a.num_queries
        - a.log_blowup * b.num_queries) by (nonlinear_arith);
    assert(a.num_queries * a.log_blowup == a.log_blowup * a.num_queries) by (nonlinear_arith);
    assert(a.log_blowup * 0 == 0);
}

/// A configuration has the query bits of each profile made from it.
pub proof fn config_bits_are_profile_bits(config: CircuitConfig, profile: FriSoundnessProfile)
    requires
        profile.of_config(config),
    ensures
        profile.bits() == config.bits(),
        config.bits() == config.num_queries * config.log_blowup + config.pow_bits,
{
    assert(config.num_queries * config.log_blowup == config.log_blowup * config.num_queries)
        by (nonlinear_arith);
}

/// Where each condition of the policy turns. A profile is admissible exactly
/// where it has something of everything, its constraints fit the blowup, its
/// trace is longer than what the final polynomial and the blowup leave, cap
/// and folding fit the commitment, and its query bits reach the floor.
pub proof fn admissible_exactly_within_limits(profile: FriSoundnessProfile, floor_bits: u32)
    ensures
        profile.admissible(floor_bits) <==> {
            &&& 1 <= profile.log_blowup
            &&& 1 <= profile.max_log_arity
            &&& 1 <= profile.num_queries
            &&& 1 <= profile.constraint_degree <= pow2(profile.log_blowup as nat)
            &&& profile.log_blowup + profile.log_final_poly_len + 1 <= profile.log_trace_height
            &&& profile.cap_height <= profile.log_blowup + profile.log_trace_height
            &&& profile.max_log_arity + profile.log_final_poly_len <= profile.log_blowup
                + profile.log_trace_height
            &&& floor_bits <= profile.num_queries * profile.log_blowup + profile.query_pow_bits
        },
{
    assert(profile.num_queries * profile.log_blowup == profile.log_blowup * profile.num_queries)
        by (nonlinear_arith);
    vstd::arithmetic::power2::lemma_pow2_pos(profile.log_blowup as nat);
}

/// A lower floor admits whatever a higher one admits, and no profile is
/// admitted above its own query bits.
pub proof fn floor_is_a_threshold(profile: FriSoundnessProfile, low: u32, high: u32)
    requires
        low <= high,
        profile.admissible(high),
    ensures
        profile.admissible(low),
        high <= profile.num_queries * profile.log_blowup + profile.query_pow_bits,
        forall|floor: u32|
            floor > profile.num_queries * profile.log_blowup + profile.query_pow_bits
                ==> !#[trigger] profile.admissible(floor),
{
    assert(profile.num_queries * profile.log_blowup == profile.log_blowup * profile.num_queries)
        by (nonlinear_arith);
}

/// A profile that a check can be asked about is one whose sums and products
/// fit a word: every profile with at most 31 bits of blowup and small numbers
/// is one, admissible or not.
pub proof fn small_profiles_are_computable(profile: FriSoundnessProfile)
    requires
        profile.log_blowup < 32,
        profile.log_final_poly_len < 0x1000_0000,
        profile.log_trace_height < 0x1000_0000,
        profile.num_queries < 0x400_0000,
        profile.query_pow_bits < 0x1000_0000,
    ensures
        profile.computable(),
{
    assert(profile.log_blowup * profile.num_queries <= 31 * 0x400_0000) by (nonlinear_arith)
        requires
            0 <= profile.log_blowup <= 31,
            0 <= profile.num_queries <= 0x400_0000,
    ;
}

/// A trace length is rounded up to the next power of two and no further.
pub proof fn rounding_is_tight(n: nat, k: nat)
    requires
        is_ceil_log2(n, k),
    ensures
        n <= pow2(k),
        k > 0 ==> pow2(k) < 2 * n,
        n <= 1 ==> k == 0,
        forall|j: nat| n == #[trigger] pow2(j) ==> k == j,
{
    vstd::arithmetic::power2::lemma2_to64();
    if k > 0 {
        vstd::arithmetic::power2::lemma_pow2_unfold(k);
        assert(pow2((k - 1) as nat) < n);
        assert(pow2(0) < n);
    }
    assert forall|j: nat| n == #[trigger] pow2(j) implies k == j by {
        if j < k {
            assert(pow2(j) < n);
        } else if k < j {
            vstd::arithmetic::power2::lemma_pow2_strictly_increases(k, j);
        }
    }
}

/// The order of the search: by blowup, then final length, then folding arity,
/// then number of queries, then cap.
pub open spec fn comes_before(p: FriSoundnessProfile, q: FriSoundnessProfile) -> bool {
    if p.log_blowup != q.log_blowup {
        p.log_blowup < q.log_blowup
    } else if p.log_final_poly_len != q.log_final_poly_len {
        p.log_final_poly_len < q.log_final_poly_len
    } else if p.max_log_arity != q.max_log_arity {
        p.max_log_arity < q.max_log_arity
    } else if p.num_queries != q.num_queries {
        p.num_queries < q.num_queries
    } else {
        p.cap_height < q.cap_height
    }
}

/// Each profile of a list comes before all that follow it.
pub open spec fn in_order(ps: Seq<FriSoundnessProfile>) -> bool {
    forall|i: int, j: int| 0 <= i < j < ps.len() ==> #[trigger] comes_before(ps[i], ps[j])
}

/// Ordered lists, one after the other.
proof fn lemma_ordered_concat(x: Seq<FriSoundnessProfile>, y: Seq<FriSoundnessProfile>)
    requires
        in_order(x),
        in_order(y),
        forall|i: int, j: int|
            0 <= i < x.len() && 0 <= j < y.len() ==> #[trigger] comes_before(x[i], y[j]),
    ensures
        in_order(x + y),
{
    let z = x + y;
    assert forall|i: int, j: int| 0 <= i < j < z.len() implies #[trigger] comes_before(
        z[i],
        z[j],
    ) by {
        if j < x.len() {
            assert(comes_before(x[i], x[j]));
        } else if i < x.len() {
            assert(comes_before(x[i], y[j - x.len()]));
        } else {
            assert(comes_before(y[i - x.len()], y[j - x.len()]));
        }
    }
}

/// The caps come in order.
proof fn lemma_caps_ordered(s: FriProfileSearch, b: u32, l: u32, a: u32, q: u32, c: int)
    requires
        s.cap_height@.start <= c,
    ensures
        in_order(s.from_cap(b, l, a, q, c)),
    decreases u32::MAX + 1 - c,
{
    if 0 <= c <= u32::MAX && in_range(s.cap_height, c) {
        lemma_caps_ordered(s, b, l, a, q, c + 1);
        let head = s.profile(b, l, a, q, c as u32);
        let x = if head.admissible(s.floor_bits) {
            seq![head]
        } else {
            Seq::empty()
        };
        let y = s.from_cap(b, l, a, q, c + 1);
        assert forall|i: int, j: int|
            0 <= i < x.len() && 0 <= j < y.len() implies #[trigger] comes_before(x[i], y[j]) by {
            assert(y.contains(y[j]));
            lemma_in_cap(s, b, l, a, q, c + 1, y[j]);
        }
        lemma_ordered_concat(x, y);
    }
}

/// The numbers of queries come in order.
proof fn lemma_queries_ordered(s: FriProfileSearch, b: u32, l: u32, a: u32, q: int)
    requires
        s.num_queries@.start <= q,
    ensures
        in_order(s.from_queries(b, l, a, q)),
    decreases u32::MAX + 1 - q,
{
    if 0 <= q <= u32::MAX && in_range(s.num_queries, q) {
        lemma_queries_ordered(s, b, l, a, q + 1);
        let start = s.cap_height@.start as int;
        lemma_caps_ordered(s, b, l, a, q as u32, start);
        let x = s.from_cap(b, l, a, q as u32, start);
        let y = s.from_queries(b, l, a, q + 1);
        assert forall|i: int, j: int|
            0 <= i < x.len() && 0 <= j < y.len() implies #[trigger] comes_before(x[i], y[j]) by {
            assert(x.contains(x[i]) && y.contains(y[j]));
            lemma_in_cap(s, b, l, a, q as u32, start, x[i]);
            lemma_in_queries(s, b, l, a, q + 1, y[j]);
        }
        lemma_ordered_concat(x, y);
    }
}

/// The folding arities come in order.
proof fn lemma_arities_ordered(s: FriProfileSearch, b: u32, l: u32, a: int)
    requires
        s.max_log_arity@.start <= a,
    ensures
        in_order(s.from_arity(b, l, a)),
    decreases u32::MAX + 1 - a,
{
    if 0 <= a <= u32::MAX && in_range(s.max_log_arity, a) {
        lemma_arities_ordered(s, b, l, a + 1);
        let start = s.num_queries@.start as int;
        lemma_queries_ordered(s, b, l, a as u32, start);
        let x = s.from_queries(b, l, a as u32, start);
        let y = s.from_arity(b, l, a + 1);
        assert forall|i: int, j: int|
            0 <= i < x.len() && 0 <= j < y.len() implies #[trigger] comes_before(x[i], y[j]) by {
            assert(x.contains(x[i]) && y.contains(y[j]));
            lemma_in_queries(s, b, l, a as u32, start, x[i]);
            lemma_in_arity(s, b, l, a + 1, y[j]);
        }
        lemma_ordered_concat(x, y);
    }
}

/// The final lengths come in order.
proof fn lemma_finals_ordered(s: FriProfileSearch, b: u32, l: int)
    requires
        s.log_final_poly_len@.start <= l,
    ensures
        in_order(s.from_final(b, l)),
    decreases u32::MAX + 1 - l,
{
    if 0 <= l <= u32::MAX && in_range(s.log_final_poly_len, l) {
        lemma_finals_ordered(s, b, l + 1);
        let start = s.max_log_arity@.start as int;
        lemma_arities_ordered(s, b, l as u32, start);
        let x = s.from_arity(b, l as u32, start);
        let y = s.from_final(b, l + 1);
        assert forall|i: int, j: int|
            0 <= i < x.len() && 0 <= j < y.len() implies #[trigger] comes_before(x[i], y[j]) by {
            assert(x.contains(x[i]) && y.contains(y[j]));
            lemma_in_arity(s, b, l as u32, start, x[i]);
            lemma_in_final(s, b, l + 1, y[j]);
        }
        lemma_ordered_concat(x, y);
    }
}

/// The blowups come in order.
proof fn lemma_blowups_ordered(s: FriProfileSearch, b: int)
    requires
        s.log_blowup@.start <= b,
    ensures
        in_order(s.from_blowup(b)),
    decreases u32::MAX + 1 - b,
{
    if 0 <= b <= u32::MAX && in_range(s.log_blowup, b) {
        lemma_blowups_ordered(s, b + 1);
        let start = s.log_final_poly_len@.start as int;
        lemma_finals_ordered(s, b as u32, start);
        let x = s.from_final(b as u32, start);
        let y = s.from_blowup(b + 1);
        assert forall|i: int, j: int|
            0 <= i < x.len() && 0 <= j < y.len() implies #[trigger] comes_before(x[i], y[j]) by {
            assert(x.contains(x[i]) && y.contains(y[j]));
            lemma_in_final(s, b as u32, start, x[i]);
            lemma_in_blowup(s, b + 1, y[j]);
        }
        lemma_ordered_concat(x, y);
    }
}

/// A search lists its profiles in order, each of them once.
pub proof fn search_lists_in_order(search: FriProfileSearch)
    ensures
        in_order(search.admissible()),
        search.admissible().no_duplicates(),
{
    lemma_blowups_ordered(search, search.log_blowup@.start as int);
    let ps = search.admissible();
    assert forall|i: int, j: int| 0 <= i < ps.len() && 0 <= j < ps.len() && i != j implies ps[i]
        != ps[j] by {
        if i < j {
            assert(comes_before(ps[i], ps[j]));
        } else {
            assert(comes_before(ps[j], ps[i]));
        }
    }
}

/// What a search looks at: every profile without proof of work whose five
/// searched parameters lie between the ends of their ranges, for the given
/// degree and trace, and no other.
pub proof fn search_covers_its_ranges(search: FriProfileSearch, p: FriSoundnessProfile)
    requires
        !search.log_blowup@.exhausted,
        !search.log_final_poly_len@.exhausted,
        !search.max_log_arity@.exhausted,
        !search.num_queries@.exhausted,
        !search.cap_height@.exhausted,
    ensures
        search.covers(p) <==> {
            &&& p.constraint_degree == search.constraint_degree
            &&& p.log_trace_height == search.log_trace_height
            &&& p.commit_pow_bits == 0
            &&& p.query_pow_bits == 0
            &&& search.log_blowup@.start <= p.log_blowup <= search.log_blowup@.end
            &&& search.log_final_poly_len@.start <= p.log_final_poly_len
                <= search.log_final_poly_len@.end
            &&& search.max_log_arity@.start <= p.max_log_arity <= search.max_log_arity@.end
            &&& search.num_queries@.start <= p.num_queries <= search.num_queries@.end
            &&& search.cap_height@.start <= p.cap_height <= search.cap_height@.end
        },
{
}

/// The production profile for a trace is admissible at the production floor,
/// for constraints of degree one to four and any trace that a proof can be
/// about.
pub proof fn production_profile_is_admissible(profile: FriSoundnessProfile)
    requires
        profile.of_config(CircuitConfig::adaptive(profile.log_trace_height as nat)),
        1 <= profile.constraint_degree <= 4,
        4 < profile.log_trace_height < 64,
    ensures
        profile.computable(),
        profile.admissible(PROD_FRI_OPERATIONAL_FLOOR_BITS),
{
    vstd::arithmetic::power2::lemma2_to64();
}

/// The permutation of the proof transcript: five-round Tip5.
#[derive(Debug, Clone, Copy, Default)]
pub struct Tip5Perm;

impl Tip5Perm {
    /// Field elements of the state.
    pub const WIDTH: usize = 16;

    /// Field elements absorbed per permutation.
    pub const RATE: usize = 10;

    /// Field elements kept across permutations.
    pub const CAPACITY: usize = 6;

    /// Rounds of the permutation.
    pub const NUM_ROUNDS: usize = 5;
}

} // verus!
