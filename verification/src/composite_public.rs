//! The public inputs of the composite proof.

use vstd::prelude::*;

use crate::composite_layout::{
    CUMSUM_TILE_START, CV_IN_START, CV_OUT_START, IS_HASH_A, IS_HASH_B, IS_HASH_JACKPOT,
    IS_USE_COMMITMENT_HASH, IS_USE_JOB_KEY, JACKPOT_MSG_START, JACKPOT_SIZE, TOTAL_TRACE_WIDTH,
};
use crate::composite_trace::CompositeTrace;
use crate::field::{canonical, decode_i32, enc, p, Val, GOLDILOCKS_P};
use crate::matrix::{val_of_i32, val_of_u32, RowMajorMatrix};

verus! {

/// Number of public values.
pub const NUM_PUBLIC_VALUES: usize = 60;

/// The final accumulator.
pub const PI_CUMSUM_OFFSET: usize = 0;

pub const PI_CUMSUM_LEN: usize = 4;

/// The final jackpot state.
pub const PI_JACKPOT_OFFSET: usize = PI_CUMSUM_OFFSET + PI_CUMSUM_LEN;

pub const PI_JACKPOT_LEN: usize = 16;

/// The digest of the left matrix.
pub const PI_HASH_A_OFFSET: usize = PI_JACKPOT_OFFSET + PI_JACKPOT_LEN;

pub const PI_HASH_A_LEN: usize = 8;

/// The digest of the right matrix.
pub const PI_HASH_B_OFFSET: usize = PI_HASH_A_OFFSET + PI_HASH_A_LEN;

pub const PI_HASH_B_LEN: usize = 8;

/// The key of the job.
pub const PI_JOB_KEY_OFFSET: usize = PI_HASH_B_OFFSET + PI_HASH_B_LEN;

pub const PI_JOB_KEY_LEN: usize = 8;

/// The key that commits to the job's matrices.
pub const PI_COMMITMENT_HASH_OFFSET: usize = PI_JOB_KEY_OFFSET + PI_JOB_KEY_LEN;

pub const PI_COMMITMENT_HASH_LEN: usize = 8;

/// The digest of the jackpot state.
pub const PI_HASH_JACKPOT_OFFSET: usize = PI_COMMITMENT_HASH_OFFSET + PI_COMMITMENT_HASH_LEN;

pub const PI_HASH_JACKPOT_LEN: usize = 8;

/// The public inputs of a composite proof.
#[derive(Clone, Debug, Eq, PartialEq)]
pub struct CompositePublicInputs {
    /// The accumulator on the last row.
    pub cumsum: [i32; PI_CUMSUM_LEN],
    /// The jackpot state on the last row.
    pub jackpot: [u32; JACKPOT_SIZE],
    /// The digest of the left matrix.
    pub hash_a: [u32; PI_HASH_A_LEN],
    /// The digest of the right matrix.
    pub hash_b: [u32; PI_HASH_B_LEN],
    /// The key of the job.
    pub job_key: [u32; PI_JOB_KEY_LEN],
    /// The key that commits to the job's matrices.
    pub commitment_hash: [u32; PI_COMMITMENT_HASH_LEN],
    /// The digest of the jackpot state.
    pub hash_jackpot: [u32; PI_HASH_JACKPOT_LEN],
}

/// Words as field elements.
pub open spec fn word_values(words: Seq<u32>) -> Seq<u64> {
    Seq::new(words.len(), |i: int| words[i] as u64)
}

/// Signed words as field elements.
pub open spec fn signed_values(words: Seq<i32>) -> Seq<u64> {
    Seq::new(words.len(), |i: int| enc(words[i] as int) as u64)
}

/// A list of zeros.
pub open spec fn zero_words(n: nat) -> Seq<u32> {
    Seq::new(n, |i: int| 0u32)
}

/// The first row from `r` on, before row `n`, whose selector cell is one.
pub open spec fn selector_row(values: Seq<u64>, selector: int, r: int, n: int) -> Option<int>
    decreases n - r,
{
    if r >= n {
        None
    } else if values[r * TOTAL_TRACE_WIDTH + selector] == 1 {
        Some(r)
    } else {
        selector_row(values, selector, r + 1, n)
    }
}

/// The eight words from a column on, on the first row whose selector is one;
/// zeros where there is none.
pub open spec fn cv_at_selector(values: Seq<u64>, n: int, selector: int, start: int) -> Seq<u32> {
    match selector_row(values, selector, 0, n) {
        Some(r) => Seq::new(8, |i: int| values[r * TOTAL_TRACE_WIDTH + start + i] as u32),
        None => zero_words(8),
    }
}

impl CompositePublicInputs {
    /// The field elements, in the order of the public values.
    pub open spec fn values(self) -> Seq<u64> {
        signed_values(self.cumsum@) + word_values(self.jackpot@) + word_values(self.hash_a@)
            + word_values(self.hash_b@) + word_values(self.job_key@) + word_values(
            self.commitment_hash@,
        ) + word_values(self.hash_jackpot@)
    }

    /// What the cells of a trace give for the public inputs.
    pub open spec fn derived(self, values: Seq<u64>) -> bool {
        let n = values.len() as int / TOTAL_TRACE_WIDTH as int;
        let last = (n - 1) * TOTAL_TRACE_WIDTH;
        let keyed = cv_at_selector(values, n, IS_USE_COMMITMENT_HASH as int, CV_IN_START as int);
        &&& self.cumsum@ == Seq::new(
            4,
            |i: int| decode_i32(values[last + CUMSUM_TILE_START + i]),
        )
        &&& self.jackpot@ == Seq::new(16, |i: int| values[last + JACKPOT_MSG_START + i] as u32)
        &&& self.hash_a@ == cv_at_selector(values, n, IS_HASH_A as int, CV_OUT_START as int)
        &&& self.hash_b@ == cv_at_selector(values, n, IS_HASH_B as int, CV_OUT_START as int)
        &&& self.job_key@ == cv_at_selector(values, n, IS_USE_JOB_KEY as int, CV_IN_START as int)
        &&& self.commitment_hash@ == if keyed == zero_words(8) {
            cv_at_selector(values, n, IS_HASH_JACKPOT as int, CV_IN_START as int)
        } else {
            keyed
        }
        &&& self.hash_jackpot@ == cv_at_selector(
            values,
            n,
            IS_HASH_JACKPOT as int,
            CV_OUT_START as int,
        )
    }

    /// All zeros.
    pub fn zero() -> (r: Self)
        ensures
            r.cumsum@ == Seq::new(4, |i: int| 0i32),
            r.jackpot@ == zero_words(16),
            r.hash_a@ == zero_words(8),
            r.hash_b@ == zero_words(8),
            r.job_key@ == zero_words(8),
            r.commitment_hash@ == zero_words(8),
            r.hash_jackpot@ == zero_words(8),
    {
        let r = CompositePublicInputs {
            cumsum: [0i32;4],
            jackpot: [0u32;16],
            hash_a: [0u32;8],
            hash_b: [0u32;8],
            job_key: [0u32;8],
            commitment_hash: [0u32;8],
            hash_jackpot: [0u32;8],
        };
        assert(r.cumsum@ =~= Seq::new(4, |i: int| 0i32));
        assert(r.jackpot@ =~= zero_words(16));
        assert(r.hash_a@ =~= zero_words(8));
        assert(r.hash_b@ =~= zero_words(8));
        assert(r.job_key@ =~= zero_words(8));
        assert(r.commitment_hash@ =~= zero_words(8));
        assert(r.hash_jackpot@ =~= zero_words(8));
        r
    }

    /// The public values, as field elements.
    pub fn to_vec(&self) -> (out: Vec<Val>)
        ensures
            out@ == self.values(),
            out@.len() == NUM_PUBLIC_VALUES,
            canonical(out@),
    {
        let mut out: Vec<Val> = Vec::new();
        let mut i: usize = 0;
        while i < 4
            invariant
                i <= 4,
                out@ == signed_values(self.cumsum@).take(i as int),
            decreases 4 - i,
        {
            proof {
                crate::field::lemma_enc_feq(self.cumsum@[i as int] as int);
            }
            out.push(val_of_i32(self.cumsum[i]));
            i = i + 1;
            assert(out@ =~= signed_values(self.cumsum@).take(i as int));
        }
        assert(out@ =~= signed_values(self.cumsum@));
        push_words(&mut out, &self.jackpot);
        push_words(&mut out, &self.hash_a);
        push_words(&mut out, &self.hash_b);
        push_words(&mut out, &self.job_key);
        push_words(&mut out, &self.commitment_hash);
        push_words(&mut out, &self.hash_jackpot);
        proof {
            assert forall|k: int| 0 <= k < out@.len() implies (#[trigger] out@[k]) < p() by {
                if k < 4 {
                    assert(out@[k] == signed_values(self.cumsum@)[k]);
                    crate::field::lemma_enc_feq(self.cumsum@[k] as int);
                }
            }
        }
        out
    }

    /// The public inputs that a composite trace gives.
    pub fn derive_from_trace(trace: &CompositeTrace) -> (r: Self)
        requires
            trace.matrix.values@.len() >= TOTAL_TRACE_WIDTH,
            canonical(trace.matrix.values@),
        ensures
            r.derived(trace.matrix.values@),
    {
        Self::derive_from_matrix(&trace.matrix)
    }

    /// The public inputs that the cells of a composite trace give: accumulator
    /// and jackpot state from the last row, digests and keys from the first
    /// row that their selector marks. Where no key is committed to, or it is
    /// zero, the key of the jackpot digest takes its place.
    pub fn derive_from_matrix(matrix: &RowMajorMatrix) -> (r: Self)
        requires
            matrix.values@.len() >= TOTAL_TRACE_WIDTH,
            canonical(matrix.values@),
        ensures
            r.derived(matrix.values@),
    {
        let n: usize = matrix.values.len() / TOTAL_TRACE_WIDTH;
        let ghost values = matrix.values@;
        proof {
            let len = values.len() as int;
            let rest = len % (TOTAL_TRACE_WIDTH as int);
            vstd::arithmetic::div_mod::lemma_fundamental_div_mod(len, TOTAL_TRACE_WIDTH as int);
            vstd::arithmetic::div_mod::lemma_mod_bound(len, TOTAL_TRACE_WIDTH as int);
            assert(n >= 1 && (n - 1) * TOTAL_TRACE_WIDTH + TOTAL_TRACE_WIDTH <= len && n
                * TOTAL_TRACE_WIDTH <= len) by (nonlinear_arith)
                requires
                    len == TOTAL_TRACE_WIDTH * n + rest,
                    0 <= rest < TOTAL_TRACE_WIDTH,
                    len >= TOTAL_TRACE_WIDTH,
            ;
        }
        let last: usize = (n - 1) * TOTAL_TRACE_WIDTH;
        let mut cumsum: [i32; PI_CUMSUM_LEN] = [0i32;4];
        let mut i: usize = 0;
        while i < 4
            invariant
                i <= 4,
                last + TOTAL_TRACE_WIDTH <= matrix.values.len(),
                canonical(matrix.values@),
                forall|k: int|
                    0 <= k < i ==> #[trigger] cumsum@[k] == decode_i32(
                        matrix.values@[last + CUMSUM_TILE_START + k],
                    ),
            decreases 4 - i,
        {
            cumsum[i] = goldilocks_to_i32(matrix.values[last + CUMSUM_TILE_START + i]);
            i = i + 1;
        }
        let mut jackpot: [u32; JACKPOT_SIZE] = [0u32;16];
        let mut j: usize = 0;
        while j < 16
            invariant
                j <= 16,
                last + TOTAL_TRACE_WIDTH <= matrix.values.len(),
                forall|k: int|
                    0 <= k < j ==> #[trigger] jackpot@[k] == matrix.values@[last
                        + JACKPOT_MSG_START + k] as u32,
            decreases 16 - j,
        {
            jackpot[j] = #[verifier::truncate] (matrix.values[last + JACKPOT_MSG_START + j] as u32);
            j = j + 1;
        }
        let hash_a = read_cv_at_selector(matrix, n, IS_HASH_A, CV_OUT_START);
        let hash_b = read_cv_at_selector(matrix, n, IS_HASH_B, CV_OUT_START);
        let hash_jackpot = read_cv_at_selector(matrix, n, IS_HASH_JACKPOT, CV_OUT_START);
        let job_key = read_cv_at_selector(matrix, n, IS_USE_JOB_KEY, CV_IN_START);
        let keyed = read_cv_at_selector(matrix, n, IS_USE_COMMITMENT_HASH, CV_IN_START);
        let commitment_hash = if all_words_zero(&keyed) {
            read_cv_at_selector(matrix, n, IS_HASH_JACKPOT, CV_IN_START)
        } else {
            keyed
        };
        assert(cumsum@ =~= Seq::new(
            4,
            |i: int| decode_i32(values[last + CUMSUM_TILE_START + i]),
        ));
        assert(jackpot@ =~= Seq::new(16, |i: int| values[last + JACKPOT_MSG_START + i] as u32));
        CompositePublicInputs {
            cumsum,
            jackpot,
            hash_a,
            hash_b,
            job_key,
            commitment_hash,
            hash_jackpot,
        }
    }
}

impl Default for CompositePublicInputs {
    fn default() -> (r: Self)
        ensures
            r.values() == Seq::new(60, |i: int| 0u64),
    {
        let r = CompositePublicInputs::zero();
        proof {
            crate::field::lemma_enc_small(0);
            assert(r.values() =~= Seq::new(60, |i: int| 0u64));
        }
        r
    }
}

/// Appends words as field elements.
fn push_words<const N: usize>(out: &mut Vec<Val>, words: &[u32; N])
    ensures
        final(out)@ == old(out)@ + word_values(words@),
{
    let mut i: usize = 0;
    while i < N
        invariant
            i <= N,
            words@.len() == N,
            out@ == old(out)@ + word_values(words@).take(i as int),
        decreases N - i,
    {
        out.push(val_of_u32(words[i]));
        i = i + 1;
        assert(out@ =~= old(out)@ + word_values(words@).take(i as int));
    }
    assert(word_values(words@).take(N as int) =~= word_values(words@));
}

/// Every word is zero.
fn all_words_zero(words: &[u32; 8]) -> (b: bool)
    ensures
        b <==> words@ == zero_words(8),
{
    let mut i: usize = 0;
    while i < 8
        invariant
            i <= 8,
            forall|k: int| 0 <= k < i ==> words@[k] == 0,
        decreases 8 - i,
    {
        if words[i] != 0 {
            assert(words@[i as int] != zero_words(8)[i as int]);
            return false;
        }
        i = i + 1;
    }
    assert(words@ =~= zero_words(8));
    true
}

/// Reads eight words on the first row that a selector marks.
fn read_cv_at_selector(matrix: &RowMajorMatrix, n: usize, selector: usize, start: usize) -> (cv: [
    u32;
    8
])
    requires
        n * TOTAL_TRACE_WIDTH <= matrix.values@.len(),
        selector < TOTAL_TRACE_WIDTH,
        start + 8 <= TOTAL_TRACE_WIDTH,
    ensures
        cv@ == cv_at_selector(matrix.values@, n as int, selector as int, start as int),
{
    let ghost values = matrix.values@;
    let mut cv: [u32; 8] = [0u32;8];
    let mut r: usize = 0;
    while r < n
        invariant
            r <= n,
            values == matrix.values@,
            n * TOTAL_TRACE_WIDTH <= matrix.values.len(),
            selector < TOTAL_TRACE_WIDTH,
            start + 8 <= TOTAL_TRACE_WIDTH,
            cv@ =~= zero_words(8),
            selector_row(values, selector as int, 0, n as int) == selector_row(
                values,
                selector as int,
                r as int,
                n as int,
            ),
        decreases n - r,
    {
        assert(r * TOTAL_TRACE_WIDTH + TOTAL_TRACE_WIDTH <= n * TOTAL_TRACE_WIDTH)
            by (nonlinear_arith)
            requires
                r < n,
        ;
        let base: usize = r * TOTAL_TRACE_WIDTH;
        if matrix.values[base + selector] == 1 {
            let mut i: usize = 0;
            while i < 8
                invariant
                    i <= 8,
                    values == matrix.values@,
                    base == r * TOTAL_TRACE_WIDTH,
                    base + TOTAL_TRACE_WIDTH <= matrix.values.len(),
                    start + 8 <= TOTAL_TRACE_WIDTH,
                    forall|k: int|
                        0 <= k < i ==> #[trigger] cv@[k] == values[base + start + k] as u32,
                decreases 8 - i,
            {
                cv[i] = #[verifier::truncate] (matrix.values[base + start + i] as u32);
                i = i + 1;
            }
            assert(cv@ =~= Seq::new(
                8,
                |i: int| values[r * TOTAL_TRACE_WIDTH + start + i] as u32,
            ));
            return cv;
        }
        r = r + 1;
    }
    cv
}

/// A representative decodes to the integer of least magnitude in its class,
/// cut to a signed word: to itself below half the modulus, to its distance
/// below the modulus otherwise.
pub proof fn decoding_takes_least_magnitude(raw: u64)
    requires
        raw < p(),
    ensures
        2 * raw < p() ==> decode_i32(raw) == raw as i32,
        2 * raw > p() ==> decode_i32(raw) == (raw - p()) as i32,
        raw <= i32::MAX ==> decode_i32(raw) == raw,
        raw >= p() + i32::MIN ==> decode_i32(raw) == raw - p(),
{
}

/// The signed word that a canonical representative stands for.
pub fn goldilocks_to_i32(raw: u64) -> (v: i32)
    ensures
        v == decode_i32(raw),
{
    if raw > GOLDILOCKS_P / 2 {
        let signed: i128 = raw as i128 - GOLDILOCKS_P as i128;
        #[verifier::truncate]
        (signed as i32)
    } else {
        #[verifier::truncate]
        (raw as i32)
    }
}

/// Where the search for a selector ends: at the first row whose selector is
/// one, or nowhere.
proof fn lemma_selector_row(values: Seq<u64>, selector: int, from: int, n: int)
    requires
        from <= n,
    ensures
        match selector_row(values, selector, from, n) {
            Some(r) => {
                &&& from <= r < n
                &&& values[r * TOTAL_TRACE_WIDTH + selector] == 1
                &&& forall|q: int|
                    from <= q < r ==> #[trigger] values[q * TOTAL_TRACE_WIDTH + selector] != 1
            },
            None => forall|q: int|
                from <= q < n ==> #[trigger] values[q * TOTAL_TRACE_WIDTH + selector] != 1,
        },
    decreases n - from,
{
    if from < n && values[from * TOTAL_TRACE_WIDTH + selector] != 1 {
        lemma_selector_row(values, selector, from + 1, n);
    }
}

/// The eight words from a column on, on a given row, cut to 32 bits.
pub open spec fn row_words(m: RowMajorMatrix, r: int, start: int) -> Seq<u32> {
    Seq::new(8, |i: int| m.row(r)[start + i] as u32)
}

/// A row is the first of a trace whose selector is one.
pub open spec fn first_marked(m: RowMajorMatrix, selector: int, r: int) -> bool {
    &&& 0 <= r < m.spec_height()
    &&& m.row(r)[selector] == 1
    &&& forall|q: int| 0 <= q < r ==> (#[trigger] m.row(q))[selector] != 1
}

/// No row of a trace has the selector at one.
pub open spec fn unmarked(m: RowMajorMatrix, selector: int) -> bool {
    forall|q: int| 0 <= q < m.spec_height() ==> (#[trigger] m.row(q))[selector] != 1
}

/// The cells of a row.
proof fn lemma_row_cell(m: RowMajorMatrix, r: int, c: int)
    requires
        m.wf(),
        m.width == TOTAL_TRACE_WIDTH,
        0 <= r < m.spec_height(),
        0 <= c < TOTAL_TRACE_WIDTH,
    ensures
        m.row(r)[c] == m.values@[r * TOTAL_TRACE_WIDTH + c],
{
    let h = m.spec_height() as int;
    let w = TOTAL_TRACE_WIDTH as int;
    assert(0 <= r * w && r * w + w <= h * w) by (nonlinear_arith)
        requires
            0 <= r < h,
            w > 0,
    ;
}

/// The words at a selector are those of the first row of the whole trace that
/// it marks, and zeros only where it marks none.
proof fn lemma_words_at_selector(m: RowMajorMatrix, selector: int, start: int)
    requires
        m.wf(),
        m.width == TOTAL_TRACE_WIDTH,
        0 <= selector < TOTAL_TRACE_WIDTH,
        0 <= start,
        start + 8 <= TOTAL_TRACE_WIDTH,
    ensures
        ({
            let words = cv_at_selector(m.values@, m.spec_height() as int, selector, start);
            &&& forall|r: int| #[trigger]
                first_marked(m, selector, r) ==> words == row_words(m, r, start)
            &&& unmarked(m, selector) ==> words == Seq::new(8, |i: int| 0u32)
            &&& unmarked(m, selector) || exists|r: int| #[trigger] first_marked(m, selector, r)
        }),
{
    let h = m.spec_height() as int;
    let values = m.values@;
    let words = cv_at_selector(values, h, selector, start);
    lemma_selector_row(values, selector, 0, h);
    assert forall|q: int| 0 <= q < h implies (#[trigger] m.row(q))[selector] == values[q
        * TOTAL_TRACE_WIDTH + selector] by {
        lemma_row_cell(m, q, selector);
    }
    match selector_row(values, selector, 0, h) {
        Some(r) => {
            assert(m.row(r)[selector] == 1);
            assert(first_marked(m, selector, r));
            assert(!unmarked(m, selector));
            assert forall|q: int| #[trigger] first_marked(m, selector, q) implies words
                == row_words(m, q, start) by {
                if q < r {
                    assert(values[q * TOTAL_TRACE_WIDTH + selector] != 1);
                } else if r < q {
                    assert(m.row(r)[selector] != 1);
                }
                assert forall|i: int| 0 <= i < 8 implies words[i] == row_words(m, q, start)[i] by {
                    lemma_row_cell(m, q, start + i);
                }
                assert(words =~= row_words(m, q, start));
            }
        },
        None => {
            assert forall|q: int| 0 <= q < h implies (#[trigger] m.row(q))[selector] != 1 by {
                assert(values[q * TOTAL_TRACE_WIDTH + selector] != 1);
            }
            assert(words =~= Seq::new(8, |i: int| 0u32));
        },
    }
}

/// A digest or key of the derived inputs is read off the first row of the
/// whole trace that its selector marks, wherever that row is, and is zero only
/// where no row is marked.
pub proof fn derived_words_are_marked_row(
    pis: CompositePublicInputs,
    m: RowMajorMatrix,
    r: int,
)
    requires
        m.wf(),
        m.width == TOTAL_TRACE_WIDTH,
        pis.derived(m.values@),
    ensures
        first_marked(m, IS_HASH_A as int, r) ==> pis.hash_a@ == row_words(
            m,
            r,
            CV_OUT_START as int,
        ),
        first_marked(m, IS_HASH_B as int, r) ==> pis.hash_b@ == row_words(
            m,
            r,
            CV_OUT_START as int,
        ),
        first_marked(m, IS_HASH_JACKPOT as int, r) ==> pis.hash_jackpot@ == row_words(
            m,
            r,
            CV_OUT_START as int,
        ),
        first_marked(m, IS_USE_JOB_KEY as int, r) ==> pis.job_key@ == row_words(
            m,
            r,
            CV_IN_START as int,
        ),
        unmarked(m, IS_HASH_A as int) ==> pis.hash_a@ == Seq::new(8, |i: int| 0u32),
        unmarked(m, IS_HASH_B as int) ==> pis.hash_b@ == Seq::new(8, |i: int| 0u32),
        unmarked(m, IS_HASH_JACKPOT as int) ==> pis.hash_jackpot@ == Seq::new(8, |i: int| 0u32),
        unmarked(m, IS_USE_JOB_KEY as int) ==> pis.job_key@ == Seq::new(8, |i: int| 0u32),
{
    let h = m.spec_height() as int;
    assert(m.values@.len() as int / TOTAL_TRACE_WIDTH as int == h);
    lemma_words_at_selector(m, IS_HASH_A as int, CV_OUT_START as int);
    lemma_words_at_selector(m, IS_HASH_B as int, CV_OUT_START as int);
    lemma_words_at_selector(m, IS_HASH_JACKPOT as int, CV_OUT_START as int);
    lemma_words_at_selector(m, IS_USE_JOB_KEY as int, CV_IN_START as int);
}

/// The derived commitment is the key of the first row that uses it. Where no
/// row does, or that key is zero, it is the key under which the jackpot digest
/// is made, and zero where there is no such digest either.
pub proof fn derived_commitment_is_key(
    pis: CompositePublicInputs,
    m: RowMajorMatrix,
    r: int,
    q: int,
)
    requires
        m.wf(),
        m.width == TOTAL_TRACE_WIDTH,
        pis.derived(m.values@),
    ensures
        ({
            let cv = CV_IN_START as int;
            let zero = Seq::new(8, |i: int| 0u32);
            let user = IS_USE_COMMITMENT_HASH as int;
            let jackpot = IS_HASH_JACKPOT as int;
            &&& first_marked(m, user, r) && row_words(m, r, cv) != zero ==> pis.commitment_hash@
                == row_words(m, r, cv)
            &&& unmarked(m, user) || (first_marked(m, user, r) && row_words(m, r, cv) == zero) ==> {
                &&& first_marked(m, jackpot, q) ==> pis.commitment_hash@ == row_words(m, q, cv)
                &&& unmarked(m, jackpot) ==> pis.commitment_hash@ == zero
            }
        }),
{
    let h = m.spec_height() as int;
    assert(m.values@.len() as int / TOTAL_TRACE_WIDTH as int == h);
    assert(zero_words(8) =~= Seq::new(8, |i: int| 0u32));
    lemma_words_at_selector(m, IS_USE_COMMITMENT_HASH as int, CV_IN_START as int);
    lemma_words_at_selector(m, IS_HASH_JACKPOT as int, CV_IN_START as int);
}

/// The derived accumulator and jackpot state are those of the last row: a
/// cell that stands for a signed word gives that word, and a jackpot cell is
/// cut to 32 bits.
pub proof fn derived_outcome_is_last_row(
    pis: CompositePublicInputs,
    m: RowMajorMatrix,
    i: int,
    v: i32,
)
    requires
        m.wf(),
        m.width == TOTAL_TRACE_WIDTH,
        m.spec_height() > 0,
        pis.derived(m.values@),
    ensures
        0 <= i < 4 && m.row(m.spec_height() - 1)[CUMSUM_TILE_START + i] == enc(v as int)
            ==> pis.cumsum@[i] == v,
        0 <= i < 16 ==> pis.jackpot@[i] == m.row(m.spec_height() - 1)[JACKPOT_MSG_START + i] as u32,
{
    let h = m.spec_height() as int;
    assert(m.values@.len() as int / TOTAL_TRACE_WIDTH as int == h);
    if 0 <= i < 4 {
        lemma_row_cell(m, h - 1, CUMSUM_TILE_START + i);
        crate::field::decode_inverts_encode(v);
    }
    if 0 <= i < 16 {
        lemma_row_cell(m, h - 1, JACKPOT_MSG_START + i);
    }
}

/// Each public input stands at its offset, and decoding the accumulator
/// values gives the accumulator back.
pub proof fn public_values_layout(pis: CompositePublicInputs)
    ensures
        pis.values().len() == NUM_PUBLIC_VALUES,
        forall|i: int|
            0 <= i < 4 ==> decode_i32(pis.values()[PI_CUMSUM_OFFSET + i])
                == #[trigger] pis.cumsum@[i],
        forall|i: int|
            0 <= i < 16 ==> pis.values()[PI_JACKPOT_OFFSET + i] == #[trigger] pis.jackpot@[i],
        forall|i: int|
            0 <= i < 8 ==> pis.values()[PI_HASH_A_OFFSET + i] == #[trigger] pis.hash_a@[i],
        forall|i: int|
            0 <= i < 8 ==> pis.values()[PI_HASH_B_OFFSET + i] == #[trigger] pis.hash_b@[i],
        forall|i: int|
            0 <= i < 8 ==> pis.values()[PI_JOB_KEY_OFFSET + i] == #[trigger] pis.job_key@[i],
        forall|i: int|
            0 <= i < 8 ==> pis.values()[PI_COMMITMENT_HASH_OFFSET + i]
                == #[trigger] pis.commitment_hash@[i],
        forall|i: int|
            0 <= i < 8 ==> pis.values()[PI_HASH_JACKPOT_OFFSET + i]
                == #[trigger] pis.hash_jackpot@[i],
{
    assert forall|i: int| 0 <= i < 4 implies decode_i32(pis.values()[PI_CUMSUM_OFFSET + i])
        == #[trigger] pis.cumsum@[i] by {
        crate::field::decode_inverts_encode(pis.cumsum@[i]);
        assert(pis.values()[i] == signed_values(pis.cumsum@)[i]);
    }
}

/// The public values determine the public inputs.
pub proof fn public_values_are_injective(a: CompositePublicInputs, b: CompositePublicInputs)
    requires
        a.values() == b.values(),
    ensures
        a.cumsum@ == b.cumsum@,
        a.jackpot@ == b.jackpot@,
        a.hash_a@ == b.hash_a@,
        a.hash_b@ == b.hash_b@,
        a.job_key@ == b.job_key@,
        a.commitment_hash@ == b.commitment_hash@,
        a.hash_jackpot@ == b.hash_jackpot@,
{
    public_values_layout(a);
    public_values_layout(b);
    assert(a.cumsum@ =~= b.cumsum@);
    assert(a.jackpot@ =~= b.jackpot@);
    assert(a.hash_a@ =~= b.hash_a@);
    assert(a.hash_b@ =~= b.hash_b@);
    assert(a.job_key@ =~= b.job_key@);
    assert(a.commitment_hash@ =~= b.commitment_hash@);
    assert(a.hash_jackpot@ =~= b.hash_jackpot@);
}

} // verus!
