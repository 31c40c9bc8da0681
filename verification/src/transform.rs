//! The heavy-hash transform: a matrix-vector product over nibbles, folded
//! back into bytes, mixed into the digest and handed to the finalizer.

use crate::arrays::array_from_fn;
use crate::matrix::Matrix;
use kaspa_hashes::KHeavyHash;
use vstd::arithmetic::div_mod::{lemma_add_mod_noop, lemma_fundamental_div_mod_converse};
use vstd::arithmetic::power2::{lemma2_to64, pow2};
use vstd::prelude::*;

verus! {

/// The digest that the finalizer, cSHAKE256 customised with "HeavyHash",
/// gives for a 32-byte block.
pub uninterp spec fn finalized(block: Seq<u8>) -> Seq<u8>;

/// `KHeavyHash::hash` on the digest made of `block`'s bytes, read back as
/// bytes: the finalizer's digest of the block.
#[verifier::external_body]
fn finalize(block: &[u8; 32]) -> (digest: [u8; 32])
    ensures
        digest@ == finalized(block@),
{
    KHeavyHash::hash(kaspa_hashes::Hash::from_bytes(*block)).as_bytes()
}

/// The 64 nibbles of a 32-byte digest: for each byte its high nibble, then
/// its low nibble.
pub open spec fn nibbles(digest: Seq<u8>) -> Seq<u8> {
    Seq::new(
        64,
        |k: int|
            if k % 2 == 0 {
                digest[k / 2] >> 4u8
            } else {
                digest[k / 2] & 0x0Fu8
            },
    )
}

/// The sum of the first `n` products `row[k] * v[k]`.
pub open spec fn dot_prefix(row: Seq<u16>, v: Seq<u8>, n: nat) -> nat
    decreases n,
{
    if n == 0 {
        0
    } else {
        dot_prefix(row, v, (n - 1) as nat) + row[n - 1] as nat * v[n - 1] as nat
    }
}

/// The dot product of a matrix row with a 64-element vector.
pub open spec fn dot(row: Seq<u16>, v: Seq<u8>) -> nat {
    dot_prefix(row, v, 64)
}

/// The 4-bit window number `k` of `sum`: bits `[4k, 4k + 4)`.
pub open spec fn window(sum: nat, k: nat) -> u8 {
    ((sum / pow2(4 * k)) % 16) as u8
}

/// The three lowest windows, written out.
pub proof fn lemma_windows(sum: nat)
    ensures
        window(sum, 0) == (sum % 16) as u8,
        window(sum, 1) == ((sum / 16) % 16) as u8,
        window(sum, 2) == ((sum / 256) % 16) as u8,
{
    lemma2_to64();
    assert(pow2(4 * 0) == 1);
    assert(pow2(4 * 1) == 16);
    assert(pow2(4 * 2) == 256);
}

/// The three lowest windows of `sum`, combined by exclusive or.
pub open spec fn fold_sum(sum: nat) -> u8 {
    window(sum, 0) ^ window(sum, 1) ^ window(sum, 2)
}

/// Folds a 16-bit sum into one nibble. The result depends on `sum` alone.
pub fn fold(sum: u16) -> (folded: u8)
    ensures
        folded == fold_sum(sum as nat),
        folded <= 15,
{
    let folded: u8 = ((sum & 0xF) ^ ((sum >> 4) & 0xF) ^ ((sum >> 8) & 0xF)) as u8;
    proof {
        lemma_windows(sum as nat);
        assert(((sum & 0xF) ^ ((sum >> 4) & 0xF) ^ ((sum >> 8) & 0xF)) as u8 == ((sum % 16) as u8) ^ (((sum
            / 16) % 16) as u8) ^ (((sum / 256) % 16) as u8)) by (bit_vector);
        assert(((sum & 0xF) ^ ((sum >> 4) & 0xF) ^ ((sum >> 8) & 0xF)) <= 15) by (bit_vector);
    }
    folded
}

/// Only the twelve low bits of a sum reach its fold, so an accumulator that
/// wraps at 16 bits folds to the same nibble as the exact sum.
pub proof fn lemma_fold_wrapped(sum: nat)
    ensures
        fold_sum(sum % 0x1_0000) == fold_sum(sum),
{
    lemma_windows(sum);
    lemma_windows(sum % 0x1_0000);
    let q = (sum / 0x1_0000) as int;
    let w = (sum % 0x1_0000) as int;
    let x = sum as int;
    lemma_fundamental_div_mod_converse(x, 16, 4096 * q + w / 16, w % 16);
    lemma_fundamental_div_mod_converse(x / 16, 16, 256 * q + (w / 16) / 16, (w / 16) % 16);
    lemma_fundamental_div_mod_converse(x, 256, 256 * q + w / 256, w % 256);
    lemma_fundamental_div_mod_converse(x / 256, 16, 16 * q + (w / 256) / 16, (w / 256) % 16);
}

/// With entries and nibbles of at most 15, a dot product is at most
/// 64 * 15 * 15 = 14400, which a 16-bit accumulator holds without wrapping.
pub proof fn lemma_dot_bounded(row: Seq<u16>, v: Seq<u8>, n: nat)
    requires
        n <= 64,
        forall|k: int| 0 <= k < n ==> row[k] <= 15,
        forall|k: int| 0 <= k < n ==> v[k] <= 15,
    ensures
        dot_prefix(row, v, n) <= 225 * n,
    decreases n,
{
    if n > 0 {
        lemma_dot_bounded(row, v, (n - 1) as nat);
        let a = row[n - 1] as nat;
        let b = v[n - 1] as nat;
        assert(a * b <= 225) by (nonlinear_arith)
            requires
                a <= 15,
                b <= 15,
        ;
    }
}

/// Every nibble of a digest is at most 15.
pub proof fn lemma_nibbles_small(digest: Seq<u8>, k: int)
    requires
        0 <= k < 64,
    ensures
        nibbles(digest)[k] <= 15,
{
    let byte = digest[k / 2];
    assert(byte >> 4u8 <= 15 && byte & 0x0Fu8 <= 15) by (bit_vector);
}

/// Splits a digest into its 64 nibbles.
pub fn expand(digest: &[u8; 32]) -> (v: [u8; 64])
    ensures
        v@ == nibbles(digest@),
        forall|k: int| 0 <= k < 64 ==> v@[k] <= 15,
{
    let mut v: [u8; 64] = [0u8; 64];
    let mut i: usize = 0;
    while i < 32
        invariant
            i <= 32,
            forall|k: int| 0 <= k < 2 * i ==> v@[k] == nibbles(digest@)[k],
            forall|k: int| 0 <= k < 2 * i ==> v@[k] <= 15,
        decreases 32 - i,
    {
        let element: u8 = digest[i];
        assert(element >> 4u8 <= 15 && element & 0x0Fu8 <= 15) by (bit_vector);
        v[2 * i] = element >> 4;
        v[2 * i + 1] = element & 0x0F;
        i += 1;
    }
    assert(v@ =~= nibbles(digest@));
    v
}

impl Matrix {
    /// Within the domain no sum wraps: each dot product of a row of a
    /// nibble-valued matrix with a digest's nibbles is at most 14400.
    pub proof fn lemma_sums_fit(&self, digest: Seq<u8>, r: int)
        requires
            self.is_nibble_valued(),
            0 <= r < 64,
        ensures
            dot(self@[r], nibbles(digest)) <= 14400,
    {
        assert forall|k: int| 0 <= k < 64 implies (#[trigger] self@[r][k]) <= 15 by {
            assert(self.at(r, k) <= 15);
        }
        assert forall|k: int| 0 <= k < 64 implies (#[trigger] nibbles(digest)[k]) <= 15 by {
            lemma_nibbles_small(digest, k);
        }
        lemma_dot_bounded(self@[r], nibbles(digest), 64);
    }

    /// The transform is a function of matrix and digest: whatever two
    /// runs on one matrix and one digest return is the same.
    pub proof fn lemma_heavy_hash_is_a_function(&self, hash: Seq<u8>, one: [u8; 32], two: [u8; 32])
        requires
            one@ == finalized(self.mixed(hash)),
            two@ == finalized(self.mixed(hash)),
        ensures
            one == two,
    {
        assert(one =~= two);
    }

    /// Output byte `i` of the matrix-vector product: the folded dot product
    /// of row `2i` in the high nibble, that of row `2i + 1` in the low one.
    pub open spec fn product_byte(&self, v: Seq<u8>, i: int) -> u8 {
        (fold_sum(dot(self@[2 * i], v)) << 4u8) | fold_sum(dot(self@[2 * i + 1], v))
    }

    /// The 32-byte block that the finalizer receives: each product byte
    /// combined by exclusive or with the digest's byte at the same place.
    pub open spec fn mixed(&self, digest: Seq<u8>) -> Seq<u8> {
        Seq::new(32, |i: int| self.product_byte(nibbles(digest), i) ^ digest[i])
    }

    /// The dot product of row `r` with `v`, accumulated in 16 bits.
    fn row_sum(&self, v: &[u8; 64], r: usize) -> (sum: u16)
        requires
            r < 64,
        ensures
            sum as nat == dot(self@[r as int], v@) % 0x1_0000,
    {
        let mut sum: u16 = 0;
        let mut j: usize = 0;
        while j < 64
            invariant
                j <= 64,
                r < 64,
                sum as nat == dot_prefix(self@[r as int], v@, j as nat) % 0x1_0000,
            decreases 64 - j,
        {
            let ghost before = dot_prefix(self@[r as int], v@, j as nat);
            let entry: u16 = self.0[r][j];
            let elem: u16 = v[j] as u16;
            let term: u16 = entry.wrapping_mul(elem);
            sum = sum.wrapping_add(term);
            proof {
                let exact = entry as nat * elem as nat;
                assert(term as nat == exact % 0x1_0000);
                assert(sum as nat == (before % 0x1_0000 + exact % 0x1_0000) % 0x1_0000);
                lemma_add_mod_noop(before as int, exact as int, 0x1_0000);
            }
            j += 1;
        }
        sum
    }

    /// One byte of the matrix-vector product.
    fn fold_rows(&self, v: &[u8; 64], i: usize) -> (byte: u8)
        requires
            i < 32,
        ensures
            byte == self.product_byte(v@, i as int),
    {
        let sum1: u16 = self.row_sum(v, 2 * i);
        let sum2: u16 = self.row_sum(v, 2 * i + 1);
        proof {
            lemma_fold_wrapped(dot(self@[2 * i], v@));
            lemma_fold_wrapped(dot(self@[2 * i + 1], v@));
        }
        (fold(sum1) << 4) | fold(sum2)
    }

    /// Multiplies the matrix against the digest's nibbles, folds the sums
    /// into bytes and mixes the digest back in.
    pub fn mix(&self, digest: &[u8; 32]) -> (block: [u8; 32])
        ensures
            block@ == self.mixed(digest@),
    {
        let v: [u8; 64] = expand(digest);
        let fold_at = |i: usize| -> (byte: u8)
            requires
                i < 32,
            ensures
                self.product_byte(v@, i as int) == byte,
            { self.fold_rows(&v, i) };
        let mut product: [u8; 32] = array_from_fn(fold_at);
        let mut i: usize = 0;
        while i < 32
            invariant
                i <= 32,
                forall|k: int| 0 <= k < i ==> product@[k] == self.mixed(digest@)[k],
                forall|k: int|
                    i <= k < 32 ==> product@[k] == self.product_byte(nibbles(digest@), k),
            decreases 32 - i,
        {
            product[i] = product[i] ^ digest[i];
            i += 1;
        }
        assert(product@ =~= self.mixed(digest@));
        product
    }

    /// The proof-of-work digest of `hash` under this matrix.
    pub fn heavy_hash(&self, hash: [u8; 32]) -> (digest: [u8; 32])
        ensures
            digest@ == finalized(self.mixed(hash@)),
    {
        let block: [u8; 32] = self.mix(&hash);
        finalize(&block)
    }
}

} // verus!
