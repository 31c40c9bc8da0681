//! The 64x64 matrix of 4-bit values and how a candidate is drawn.

use crate::generator::{generator_words, next_word, state_after, word_at};
use kaspa_pow::xoshiro::XoShiRo256PlusPlus;
use vstd::prelude::*;

verus! {

/// A 64x64 grid of small integers, row by row.
#[derive(Debug, Ord, PartialOrd, Eq, PartialEq)]
pub struct Matrix(pub [[u16; 64]; 64]);

/// The 4-bit value number `slot` of `word`, counting from the least
/// significant end.
pub open spec fn nibble(word: u64, slot: int) -> u16 {
    ((word >> ((4 * slot) as u64)) & 0xF) as u16
}

/// The entry in row `i`, column `j` of the candidate that a generator in
/// state `s` yields: each row takes four successive words, each word fills
/// sixteen consecutive columns from its low nibble upwards.
pub open spec fn candidate_entry(s: Seq<u64>, i: int, j: int) -> u16 {
    nibble(word_at(s, (4 * i + j / 16) as nat), j % 16)
}

impl View for Matrix {
    type V = Seq<Seq<u16>>;

    /// The entries as sequences, row by row.
    open spec fn view(&self) -> Seq<Seq<u16>> {
        Seq::new(64, |i: int| self.0[i]@)
    }
}

impl Matrix {
    /// The entry in row `i`, column `j`.
    pub open spec fn at(&self, i: int, j: int) -> u16 {
        self.0[i][j]
    }

    /// Every entry is a 4-bit value.
    pub open spec fn is_nibble_valued(&self) -> bool {
        forall|i: int, j: int| 0 <= i < 64 && 0 <= j < 64 ==> #[trigger] self.at(i, j) <= 15
    }

    /// This matrix is the candidate that a generator in state `s` yields.
    pub open spec fn is_candidate_of(&self, s: Seq<u64>) -> bool {
        forall|i: int, j: int|
            0 <= i < 64 && 0 <= j < 64 ==> #[trigger] self.at(i, j) == candidate_entry(s, i, j)
    }

    /// Draws one candidate: 256 words, consumed row by row.
    pub fn rand_matrix_no_rank_check(generator: &mut XoShiRo256PlusPlus) -> (mat: Matrix)
        ensures
            mat.is_candidate_of(generator_words(*old(generator))),
            mat.is_nibble_valued(),
            generator_words(*final(generator)) == state_after(
                generator_words(*old(generator)),
                256,
            ),
    {
        let ghost start = generator_words(*generator);
        let mut rows: [[u16; 64]; 64] = [[0u16; 64]; 64];
        let mut i: usize = 0;
        while i < 64
            invariant
                i <= 64,
                generator_words(*generator) == state_after(start, (4 * i) as nat),
                forall|a: int, b: int|
                    0 <= a < i && 0 <= b < 64 ==> #[trigger] rows[a][b] == candidate_entry(
                        start,
                        a,
                        b,
                    ),
            decreases 64 - i,
        {
            let mut w: usize = 0;
            while w < 4
                invariant
                    i < 64,
                    w <= 4,
                    generator_words(*generator) == state_after(start, (4 * i + w) as nat),
                    forall|a: int, b: int|
                        0 <= a < i && 0 <= b < 64 ==> #[trigger] rows[a][b] == candidate_entry(
                            start,
                            a,
                            b,
                        ),
                    forall|b: int|
                        0 <= b < 16 * w ==> #[trigger] rows[i as int][b] == candidate_entry(
                            start,
                            i as int,
                            b,
                        ),
                decreases 4 - w,
            {
                let val: u64 = next_word(generator);
                assert(generator_words(*generator) == state_after(start, (4 * i + w + 1) as nat));
                let mut shift: usize = 0;
                while shift < 16
                    invariant
                        i < 64,
                        w < 4,
                        shift <= 16,
                        val == word_at(start, (4 * i + w) as nat),
                        forall|a: int, b: int|
                            0 <= a < i && 0 <= b < 64 ==> #[trigger] rows[a][b]
                                == candidate_entry(start, a, b),
                        forall|b: int|
                            0 <= b < 16 * w + shift ==> #[trigger] rows[i as int][b]
                                == candidate_entry(start, i as int, b),
                    decreases 16 - shift,
                {
                    let v: u16 = ((val >> (4 * shift)) & 0x0F) as u16;
                    rows[i][16 * w + shift] = v;
                    shift += 1;
                }
                w += 1;
            }
            i += 1;
        }
        let mat = Matrix(rows);
        proof {
            assert forall|a: int, b: int| 0 <= a < 64 && 0 <= b < 64 implies #[trigger] mat.at(a, b)
                <= 15 by {
                lemma_nibble_small(word_at(start, (4 * a + b / 16) as nat), b % 16);
            }
        }
        mat
    }
}

/// A nibble is at most 15.
pub proof fn lemma_nibble_small(word: u64, slot: int)
    requires
        0 <= slot < 16,
    ensures
        nibble(word, slot) <= 15,
{
    let sh = (4 * slot) as u64;
    assert(((word >> sh) & 0xF) <= 15) by (bit_vector);
}

} // verus!
