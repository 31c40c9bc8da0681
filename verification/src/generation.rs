//! Drawing candidates from a seed until one has full rank.

use crate::generator::{
    advance, generator_words, output, seed_words, seeded, state_after, word_at,
};
use crate::matrix::{candidate_entry, Matrix};
use crate::rank::{lemma_rank_of_zeros, rank_of};
use vstd::prelude::*;

verus! {

/// How many candidates are drawn before the search gives up. Each takes
/// 256 words of the stream, so the limit is out of any machine's reach.
pub const ATTEMPTS: u64 = 0xFFFF_FFFF_FFFF_FFFF;

/// The candidate that a generator in state `s` yields, row by row.
pub open spec fn candidate_rows(s: Seq<u64>) -> Seq<Seq<u16>> {
    Seq::new(64, |i: int| Seq::new(64, |j: int| candidate_entry(s, i, j)))
}

/// The state in which candidate number `k` is drawn: each candidate
/// before it has consumed 256 words.
pub open spec fn state_before(s: Seq<u64>, k: nat) -> Seq<u64> {
    state_after(s, 256 * k)
}

/// Whether candidate number `k` of the stream that starts in state `s` has
/// full rank.
pub open spec fn accepted(s: Seq<u64>, k: nat) -> bool {
    rank_of(candidate_rows(state_before(s, k))) == 64
}

/// The number of the first accepted candidate among those numbered
/// `from .. limit`, if there is one.
pub open spec fn first_accepted(s: Seq<u64>, from: nat, limit: nat) -> Option<nat>
    decreases limit - from,
{
    if from >= limit {
        None
    } else if accepted(s, from) {
        Some(from)
    } else {
        first_accepted(s, from + 1, limit)
    }
}

/// What `generate` returns for a seed: the first accepted candidate of the
/// seed's stream, or nothing if none of the first `ATTEMPTS` is accepted.
pub open spec fn is_generated_from(found: Option<Matrix>, seed: Seq<u8>) -> bool {
    match first_accepted(seed_words(seed), 0, ATTEMPTS as nat) {
        Some(k) => found matches Some(mat) && mat.is_candidate_of(
            state_before(seed_words(seed), k),
        ),
        None => found is None,
    }
}

/// The limit only ends a search that has found nothing: a candidate found
/// below one limit is the one found below every larger limit.
pub proof fn lemma_limit_keeps_what_was_found(s: Seq<u64>, from: nat, limit: nat, larger: nat)
    requires
        limit <= larger,
        first_accepted(s, from, limit) is Some,
    ensures
        first_accepted(s, from, larger) == first_accepted(s, from, limit),
    decreases limit - from,
{
    if from < limit && !accepted(s, from) {
        lemma_limit_keeps_what_was_found(s, from + 1, limit, larger);
    }
}

/// Drawing `a` words and then `b` more is drawing `a + b`.
pub proof fn lemma_state_after_adds(s: Seq<u64>, a: nat, b: nat)
    ensures
        state_after(state_after(s, a), b) == state_after(s, a + b),
    decreases b,
{
    if b > 0 {
        lemma_state_after_adds(s, a, (b - 1) as nat);
    }
}

/// The state of four zero words.
pub open spec fn zero_state() -> Seq<u64> {
    seq![0u64, 0u64, 0u64, 0u64]
}

/// The zero state never changes, and every word drawn from it is zero.
pub proof fn lemma_zero_state_is_fixed(n: nat)
    ensures
        state_after(zero_state(), n) == zero_state(),
        word_at(zero_state(), n) == 0,
    decreases n,
{
    let z = zero_state();
    assert(0u64 << 17u64 == 0 && 0u64 ^ 0u64 == 0) by (bit_vector);
    assert(((0u64 << 45u64) | (0u64 >> 19u64)) == 0) by (bit_vector);
    assert(((0u64 << 23u64) | (0u64 >> 41u64)) == 0) by (bit_vector);
    assert(advance(z) =~= z);
    assert(output(z) == 0);
    if n > 0 {
        lemma_zero_state_is_fixed((n - 1) as nat);
    }
}

/// No candidate of the zero state is accepted.
proof fn lemma_zero_state_is_rejected(from: nat, limit: nat)
    ensures
        first_accepted(zero_state(), from, limit) is None,
    decreases limit - from,
{
    if from < limit {
        let s = state_before(zero_state(), from);
        lemma_zero_state_is_fixed(256 * from);
        let rows = candidate_rows(s);
        assert forall|i: int, j: int| 0 <= i < 64 && 0 <= j < 64 implies #[trigger] rows[i][j]
            == 0 by {
            lemma_zero_state_is_fixed((4 * i + j / 16) as nat);
            let sh = (4 * (j % 16)) as u64;
            assert(((0u64 >> sh) & 0xF) == 0) by (bit_vector);
        }
        lemma_rank_of_zeros(rows);
        lemma_zero_state_is_rejected(from + 1, limit);
    }
}

/// The seed of 32 zero bytes has no matrix: its stream is zero throughout,
/// so every candidate is the zero matrix, whose rank is 0.
pub proof fn lemma_zero_seed_has_no_matrix(seed: Seq<u8>, limit: nat)
    requires
        seed.len() == 32,
        forall|i: int| 0 <= i < 32 ==> seed[i] == 0,
    ensures
        first_accepted(seed_words(seed), 0, limit) is None,
{
    assert(seed_words(seed) =~= zero_state());
    lemma_zero_state_is_rejected(0, limit);
}

impl Matrix {
    /// Two matrices that are the candidate of one state are equal: what a
    /// seed yields is a function of the seed.
    pub proof fn lemma_candidate_is_unique(a: Matrix, b: Matrix, s: Seq<u64>)
        requires
            a.is_candidate_of(s),
            b.is_candidate_of(s),
        ensures
            a == b,
    {
        assert forall|i: int| 0 <= i < 64 implies a.0[i] == b.0[i] by {
            assert forall|j: int| 0 <= j < 64 implies a.0[i][j] == b.0[i][j] by {
                assert(a.at(i, j) == b.at(i, j));
            }
            assert(a.0[i] =~= b.0[i]);
        }
        assert(a.0 =~= b.0);
    }

    /// Generation is a function of the seed: whatever two runs on one
    /// seed return is the same.
    pub proof fn lemma_generate_is_a_function(
        seed: Seq<u8>,
        one: Option<Matrix>,
        two: Option<Matrix>,
    )
        requires
            is_generated_from(one, seed),
            is_generated_from(two, seed),
        ensures
            one == two,
    {
        match first_accepted(seed_words(seed), 0, ATTEMPTS as nat) {
            Some(k) => {
                Matrix::lemma_candidate_is_unique(
                    one->0,
                    two->0,
                    state_before(seed_words(seed), k),
                );
            },
            None => {},
        }
    }

    /// A matrix that is the candidate of a state has that candidate's rows.
    pub proof fn lemma_rows_of_candidate(&self, s: Seq<u64>)
        requires
            self.is_candidate_of(s),
        ensures
            self@ == candidate_rows(s),
    {
        assert forall|i: int| 0 <= i < 64 implies #[trigger] self@[i] =~= candidate_rows(
            s,
        )[i] by {
            assert forall|j: int| 0 <= j < 64 implies self@[i][j] == candidate_entry(
                s,
                i,
                j,
            ) by {
                assert(self.at(i, j) == candidate_entry(s, i, j));
            }
        }
        assert(self@ =~= candidate_rows(s));
    }

    /// The matrix for a seed: the first candidate of the seed's stream
    /// that has full rank. `None` only if none of the first `ATTEMPTS`
    /// candidates has.
    pub fn generate(hash: [u8; 32]) -> (found: Option<Matrix>)
        ensures
            is_generated_from(found, hash@),
            found matches Some(mat) ==> rank_of(mat@) == 64 && mat.is_nibble_valued(),
    {
        let ghost start = seed_words(hash@);
        let mut generator = seeded(&hash);
        let mut attempt: u64 = 0;
        while attempt < ATTEMPTS
            invariant
                attempt <= ATTEMPTS,
                start == seed_words(hash@),
                generator_words(generator) == state_before(start, attempt as nat),
                first_accepted(start, 0, ATTEMPTS as nat) == first_accepted(
                    start,
                    attempt as nat,
                    ATTEMPTS as nat,
                ),
            decreases ATTEMPTS - attempt,
        {
            let ghost state = generator_words(generator);
            let mat = Matrix::rand_matrix_no_rank_check(&mut generator);
            proof {
                lemma_state_after_adds(start, 256 * attempt as nat, 256);
                mat.lemma_rows_of_candidate(state);
            }
            if mat.compute_rank() == 64 {
                return Some(mat);
            }
            attempt += 1;
        }
        None
    }
}

} // verus!
