//! Bit-level Hamming distance between byte sequences, and the total pairwise
//! distance over a collection of equal-length chunks — the raw material of
//! the key-length estimator.

use vstd::prelude::*;

verus! {

/// Number of set bits in a byte.
pub open spec fn popcount8(b: u8) -> int {
    (b & 1) + ((b >> 1) & 1) + ((b >> 2) & 1) + ((b >> 3) & 1) + ((b >> 4) & 1) + ((b >> 5) & 1) + (
    (b >> 6) & 1) + ((b >> 7) & 1)
}

proof fn lemma_popcount8_bounds()
    by (bit_vector)
    ensures
        forall|b: u8| 0 <= #[trigger] popcount8(b) <= 8,
{
}

/// Hamming distance between two equal-length byte sequences: the number of
/// differing bits, summed over corresponding byte positions after XOR.
pub open spec fn hamming_spec(a: Seq<u8>, b: Seq<u8>) -> int
    recommends
        a.len() == b.len(),
    decreases a.len(),
{
    if a.len() == 0 {
        0
    } else {
        hamming_spec(a.drop_last(), b.drop_last()) + popcount8(a.last() ^ b.last())
    }
}

pub proof fn lemma_hamming_bounds(a: Seq<u8>, b: Seq<u8>)
    requires
        a.len() == b.len(),
    ensures
        0 <= hamming_spec(a, b) <= 8 * a.len(),
    decreases a.len(),
{
    lemma_popcount8_bounds();
    if a.len() > 0 {
        lemma_hamming_bounds(a.drop_last(), b.drop_last());
    }
}

/// Number of set bits in `b`, computed bit by bit.
pub fn popcount_byte(b: u8) -> (r: u8)
    ensures
        r as int == popcount8(b),
{
    proof {
        assert((b & 1) <= 1 && ((b >> 1) & 1) <= 1 && ((b >> 2) & 1) <= 1 && ((b >> 3) & 1) <= 1
            && ((b >> 4) & 1) <= 1 && ((b >> 5) & 1) <= 1 && ((b >> 6) & 1) <= 1 && ((b >> 7) & 1)
            <= 1) by (bit_vector);
    }
    (b & 1) + ((b >> 1) & 1) + ((b >> 2) & 1) + ((b >> 3) & 1) + ((b >> 4) & 1) + ((b >> 5) & 1) + (
    (b >> 6) & 1) + ((b >> 7) & 1)
}

/// Hamming distance between two equal-length byte slices.
pub fn hamming(a: &[u8], b: &[u8]) -> (r: u128)
    requires
        a@.len() == b@.len(),
    ensures
        r as int == hamming_spec(a@, b@),
{
    let mut total: u128 = 0;
    let mut i: usize = 0;
    while i < a.len()
        invariant
            a@.len() == b@.len(),
            i <= a.len(),
            total as int == hamming_spec(a@.take(i as int), b@.take(i as int)),
            total <= 8 * i,
        decreases a.len() - i,
    {
        let d = popcount_byte(a[i] ^ b[i]);
        proof {
            lemma_popcount8_bounds();
            assert(a@.take(i + 1).drop_last() =~= a@.take(i as int));
            assert(b@.take(i + 1).drop_last() =~= b@.take(i as int));
        }
        total = total + d as u128;
        i = i + 1;
    }
    proof {
        assert(a@.take(a@.len() as int) =~= a@);
        assert(b@.take(b@.len() as int) =~= b@);
    }
    total
}

/// Sum of the Hamming distances between `c` and every chunk in `chunks`.
pub open spec fn hamming_against_all(chunks: Seq<Seq<u8>>, c: Seq<u8>) -> int
    decreases chunks.len(),
{
    if chunks.len() == 0 {
        0
    } else {
        hamming_against_all(chunks.drop_last(), c) + hamming_spec(chunks.last(), c)
    }
}

/// Total Hamming distance over all unordered pairs of chunks.
pub open spec fn pair_hamming_total(chunks: Seq<Seq<u8>>) -> int
    decreases chunks.len(),
{
    if chunks.len() == 0 {
        0
    } else {
        pair_hamming_total(chunks.drop_last()) + hamming_against_all(
            chunks.drop_last(),
            chunks.last(),
        )
    }
}

/// All chunks have length `k`.
pub open spec fn chunks_len(chunks: Seq<Seq<u8>>, k: int) -> bool {
    forall|i: int| 0 <= i < chunks.len() ==> (#[trigger] chunks[i]).len() == k
}

pub proof fn lemma_against_all_bounds(chunks: Seq<Seq<u8>>, c: Seq<u8>, k: int)
    requires
        chunks_len(chunks, k),
        c.len() == k,
    ensures
        0 <= hamming_against_all(chunks, c) <= 8 * k * chunks.len(),
    decreases chunks.len(),
{
    if chunks.len() > 0 {
        lemma_against_all_bounds(chunks.drop_last(), c, k);
        lemma_hamming_bounds(chunks.last(), c);
        assert(8 * k * (chunks.len() - 1) + 8 * k == 8 * k * chunks.len()) by (nonlinear_arith);
    }
}

pub proof fn lemma_pair_total_bounds(chunks: Seq<Seq<u8>>, k: int)
    requires
        chunks_len(chunks, k),
        k >= 0,
    ensures
        0 <= pair_hamming_total(chunks) <= 4 * k * chunks.len() * chunks.len(),
    decreases chunks.len(),
{
    if chunks.len() > 0 {
        let n = chunks.len() as int;
        lemma_pair_total_bounds(chunks.drop_last(), k);
        lemma_against_all_bounds(chunks.drop_last(), chunks.last(), k);
        assert(4 * k * (n - 1) * (n - 1) + 8 * k * (n - 1) <= 4 * k * n * n) by (nonlinear_arith)
            requires
                k >= 0,
                n >= 1,
        ;
    }
}

} // verus!
