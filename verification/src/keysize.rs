//! Key-length estimation for repeating-key XOR: sample equal-length chunks
//! from the front of the ciphertext and prefer the candidate length whose
//! chunks are closest together in mean pairwise normalized Hamming distance.

use crate::hamming::{
    chunks_len, hamming, hamming_against_all, lemma_against_all_bounds, lemma_hamming_bounds,
    lemma_pair_total_bounds, pair_hamming_total,
};
use crate::rational::frac_lt;
use vstd::prelude::*;

verus! {

/// The first `c` contiguous chunks of `k` bytes of `buf`.
pub open spec fn chunks_of(buf: Seq<u8>, k: int, c: int) -> Seq<Seq<u8>>
    recommends
        k >= 1,
        c * k <= buf.len(),
{
    Seq::new(c as nat, |i: int| buf.subrange(i * k, (i + 1) * k))
}

/// Distance numerator of candidate length `k`: the total pairwise Hamming
/// distance over its `c` sampled chunks. The candidate's mean pairwise
/// normalized distance is this value divided by `k` times the number of
/// chunk pairs; the pair count is the same for every candidate, so two
/// candidates compare as the rationals `num/k` do.
pub open spec fn candidate_num(buf: Seq<u8>, c: int, k: int) -> int {
    pair_hamming_total(chunks_of(buf, k, c))
}

/// Whether candidate length `k` has enough ciphertext to sample `c` chunks.
pub open spec fn candidate_fits(buf: Seq<u8>, c: int, k: int) -> bool {
    c * k <= buf.len()
}

/// The estimate: among the candidate lengths with enough data, the one of
/// minimum mean pairwise normalized distance, ties broken in favour of the
/// earliest candidate in iteration order (a later candidate replaces the
/// best so far only when strictly smaller). `None` when no candidate has
/// enough data.
pub open spec fn best_key_size(buf: Seq<u8>, c: int, sizes: Seq<usize>) -> Option<usize>
    decreases sizes.len(),
{
    if sizes.len() == 0 {
        None
    } else {
        let prev = best_key_size(buf, c, sizes.drop_last());
        let k = sizes.last();
        if !candidate_fits(buf, c, k as int) {
            prev
        } else {
            match prev {
                Option::None => Option::Some(k),
                Option::Some(bk) => {
                    if candidate_num(buf, c, k as int) * (bk as int) < candidate_num(
                        buf,
                        c,
                        bk as int,
                    ) * (k as int) {
                        Option::Some(k)
                    } else {
                        Option::Some(bk)
                    }
                },
            }
        }
    }
}

/// Copy the first `c` chunks of `k` bytes out of `buf`.
fn chunk_prefix(buf: &[u8], k: usize, c: usize) -> (r: Vec<Vec<u8>>)
    requires
        1 <= k,
        (c as int) * (k as int) <= buf@.len(),
    ensures
        r@.len() == c,
        forall|i: int| 0 <= i < c ==> (#[trigger] r@[i])@ == buf@.subrange(
            i * (k as int),
            (i + 1) * (k as int),
        ),
{
    let n = buf.len();
    let mut chunks: Vec<Vec<u8>> = Vec::new();
    let mut i: usize = 0;
    while i < c
        invariant
            1 <= k,
            n == buf@.len(),
            (c as int) * (k as int) <= n,
            i <= c,
            chunks@.len() == i,
            forall|m: int| 0 <= m < i ==> (#[trigger] chunks@[m])@ == buf@.subrange(
                m * (k as int),
                (m + 1) * (k as int),
            ),
        decreases c - i,
    {
        proof {
            assert((i + 1) * (k as int) <= (c as int) * (k as int) && 0 <= (i as int) * (k as int)
                && (i as int) * (k as int) + (k as int) == (i + 1) * (k as int))
                by (nonlinear_arith)
                requires
                    0 <= i,
                    i < c,
                    1 <= k,
            ;
        }
        let base = i * k;
        let mut chunk: Vec<u8> = Vec::new();
        let mut j: usize = 0;
        while j < k
            invariant
                n == buf@.len(),
                base + k <= n,
                base == (i as int) * (k as int),
                j <= k,
                chunk@.len() == j,
                forall|jj: int| 0 <= jj < j ==> chunk@[jj] == buf@[base + jj],
            decreases k - j,
        {
            chunk.push(buf[base + j]);
            j = j + 1;
        }
        proof {
            assert(chunk@ =~= buf@.subrange((i as int) * (k as int), (i + 1) * (k as int)));
        }
        chunks.push(chunk);
        i = i + 1;
    }
    chunks
}

/// Views of a sequence of byte vectors.
pub open spec fn views_of(s: Seq<Vec<u8>>) -> Seq<Seq<u8>> {
    Seq::new(s.len(), |i: int| s[i]@)
}

/// Total Hamming distance over all unordered pairs of chunks, each of `k`
/// bytes. The bound in the precondition keeps the exact 128-bit sum from
/// overflowing.
fn pairwise_total(chunks: &Vec<Vec<u8>>, k: usize) -> (r: u128)
    requires
        chunks_len(views_of(chunks@), k as int),
        4 * (k as int) * (chunks@.len() as int) * (chunks@.len() as int)
            < 0x100000000000000000000000000000000,
    ensures
        r as int == pair_hamming_total(views_of(chunks@)),
{
    let ghost cv = views_of(chunks@);
    let c = chunks.len();
    let mut total: u128 = 0;
    let mut m: usize = 0;
    while m < c
        invariant
            chunks_len(cv, k as int),
            cv == views_of(chunks@),
            cv.len() == c,
            c == chunks@.len(),
            4 * (k as int) * (c as int) * (c as int) < 0x100000000000000000000000000000000,
            m <= c,
            total as int == pair_hamming_total(cv.take(m as int)),
        decreases c - m,
    {
        let mut j: usize = 0;
        while j < m
            invariant
                chunks_len(cv, k as int),
                cv == views_of(chunks@),
                cv.len() == c,
                c == chunks@.len(),
                4 * (k as int) * (c as int) * (c as int) < 0x100000000000000000000000000000000,
                j <= m,
                m < c,
                total as int == pair_hamming_total(cv.take(m as int)) + hamming_against_all(
                    cv.take(j as int),
                    cv[m as int],
                ),
            decreases m - j,
        {
            proof {
                lemma_pair_total_bounds(cv.take(m as int), k as int);
                lemma_against_all_bounds(cv.take(j as int), cv[m as int], k as int);
                lemma_hamming_bounds(cv[j as int], cv[m as int]);
                assert(4 * (k as int) * (m as int) * (m as int) + 8 * (k as int) * (j as int) + 8
                    * (k as int) <= 4 * (k as int) * (c as int) * (c as int)) by (nonlinear_arith)
                    requires
                        0 <= k,
                        0 <= j < m,
                        m < c,
                ;
                assert(cv.take(j + 1).drop_last() =~= cv.take(j as int));
            }
            let d = hamming(chunks[j].as_slice(), chunks[m].as_slice());
            total = total + d;
            j = j + 1;
        }
        proof {
            assert(cv.take(m + 1).drop_last() =~= cv.take(m as int));
        }
        m = m + 1;
    }
    proof {
        assert(cv.take(c as int) =~= cv);
    }
    total
}

/// Estimate the key length from `keysizes`, sampling `chunk_count` chunks
/// per candidate. A candidate `k` is considered only when
/// `chunk_count * k <= buf.len()`; among the considered candidates the one
/// of minimum mean pairwise normalized Hamming distance wins, ties going to
/// the earliest in `keysizes` order. Returns `None` when no candidate has
/// enough data — callers must handle the absence rather than read a default.
///
/// At least two chunks are needed to form a pair, and the bound on
/// `chunk_count * buf.len()` keeps the exact 128-bit distance sums from
/// overflowing.
pub fn guess_chunked_key_size(chunk_count: usize, keysizes: &[usize], buf: &[u8]) -> (r: Option<
    usize,
>)
    requires
        2 <= chunk_count,
        forall|i: int| 0 <= i < keysizes@.len() ==> 1 <= #[trigger] keysizes@[i],
        4 * (chunk_count as int) * (buf@.len() as int) < 0x100000000000000000000000000000000,
    ensures
        r == best_key_size(buf@, chunk_count as int, keysizes@),
{
    let ghost c = chunk_count as int;
    let n = buf.len();
    let mut best: Option<(usize, u128)> = None;
    let mut idx: usize = 0;
    while idx < keysizes.len()
        invariant
            2 <= chunk_count,
            forall|i: int| 0 <= i < keysizes@.len() ==> 1 <= #[trigger] keysizes@[i],
            4 * c * (buf@.len() as int) < 0x100000000000000000000000000000000,
            c == chunk_count as int,
            n == buf@.len(),
            idx <= keysizes@.len(),
            best is None <==> best_key_size(buf@, c, keysizes@.take(idx as int)) is None,
            best matches Some((bk, bh)) ==> best_key_size(buf@, c, keysizes@.take(idx as int))
                == Some(bk) && bh as int == candidate_num(buf@, c, bk as int) && 1 <= bk
                && candidate_fits(buf@, c, bk as int),
        decreases keysizes@.len() - idx,
    {
        let k = keysizes[idx];
        let fits = match chunk_count.checked_mul(k) {
            Some(byte_count) => byte_count <= n,
            None => false,
        };
        proof {
            assert(keysizes@.take(idx + 1).drop_last() =~= keysizes@.take(idx as int));
        }
        if fits {
            let chunks = chunk_prefix(buf, k, chunk_count);
            proof {
                let kk = k as int;
                assert forall|i: int| 0 <= i < c implies (#[trigger] chunks_of(buf@, kk, c)[i]).len()
                    == kk by {
                    assert(0 <= i * kk && i * kk + kk == (i + 1) * kk && (i + 1) * kk <= c * kk)
                        by (nonlinear_arith)
                        requires
                            0 <= i < c,
                            1 <= kk,
                    ;
                }
                assert(views_of(chunks@) =~= chunks_of(buf@, kk, c));
                assert(chunks_len(views_of(chunks@), kk));
                assert(4 * kk * c * c < 0x100000000000000000000000000000000) by (nonlinear_arith)
                    requires
                        c * kk <= buf@.len() as int,
                        2 <= c,
                        1 <= kk,
                        4 * c * (buf@.len() as int) < 0x100000000000000000000000000000000,
                ;
            }
            let h = pairwise_total(&chunks, k);
            match best {
                None => {
                    best = Some((k, h));
                },
                Some((bk, bh)) => {
                    if frac_lt(h, k as u64, bh, bk as u64) {
                        best = Some((k, h));
                    }
                },
            }
        }
        idx = idx + 1;
    }
    proof {
        assert(keysizes@.take(keysizes@.len() as int) =~= keysizes@);
    }
    match best {
        None => None,
        Some((bk, _)) => Some(bk),
    }
}

/// Estimate the most likely repeating-key length, sampling 10 chunks per
/// candidate. Absence of a valid candidate (no `k` in `keysizes` with
/// `10 * k <= buf.len()`) collapses to the sentinel `0`; since every
/// candidate is at least 1, `0` is never a genuine key length, but callers
/// that prefer the absence explicit should use [`guess_chunked_key_size`].
pub fn guess_key_size(keysizes: &[usize], buf: &[u8]) -> (r: usize)
    requires
        forall|i: int| 0 <= i < keysizes@.len() ==> 1 <= #[trigger] keysizes@[i],
    ensures
        r == match best_key_size(buf@, 10, keysizes@) {
            Option::Some(k) => k as int,
            Option::None => 0int,
        },
        r == 0 <==> best_key_size(buf@, 10, keysizes@) is None,
{
    let n = buf.len();
    proof {
        lemma_best_key_size_fits(buf@, 10, keysizes@);
        assert(4 * 10 * (n as int) < 0x100000000000000000000000000000000) by (nonlinear_arith)
            requires
                0 <= (n as int) <= 0xffffffffffffffff,
        ;
    }
    match guess_chunked_key_size(10, keysizes, buf) {
        Some(k) => k,
        None => 0,
    }
}

/// A selected key length is one of the candidates, is positive when all
/// candidates are, and had enough ciphertext to be sampled.
pub proof fn lemma_best_key_size_fits(buf: Seq<u8>, c: int, sizes: Seq<usize>)
    ensures
        best_key_size(buf, c, sizes) matches Some(k) ==> (exists|i: int|
            0 <= i < sizes.len() && sizes[i] == k) && candidate_fits(buf, c, k as int),
    decreases sizes.len(),
{
    if sizes.len() > 0 {
        lemma_best_key_size_fits(buf, c, sizes.drop_last());
        assert(forall|i: int| 0 <= i < sizes.len() - 1 ==> sizes.drop_last()[i] == sizes[i]);
        let b = best_key_size(buf, c, sizes);
        let prev = best_key_size(buf, c, sizes.drop_last());
        if b is Some {
            let k = b->Some_0;
            if prev is Some && k == prev->Some_0 {
                let i = choose|i: int|
                    0 <= i < sizes.drop_last().len() && sizes.drop_last()[i] == k;
                assert(sizes[i] == k);
            } else {
                assert(sizes[sizes.len() - 1] == k);
            }
        }
    }
}

/// Insufficient data: the estimator has no result exactly when no candidate
/// length has enough ciphertext to sample `c` chunks.
pub proof fn lemma_no_candidate_fits(buf: Seq<u8>, c: int, sizes: Seq<usize>)
    ensures
        best_key_size(buf, c, sizes) is None <==> (forall|i: int|
            0 <= i < sizes.len() ==> !candidate_fits(buf, c, #[trigger] sizes[i] as int)),
    decreases sizes.len(),
{
    if sizes.len() > 0 {
        assert(forall|i: int| 0 <= i < sizes.len() - 1 ==> sizes.drop_last()[i] == sizes[i]);
        lemma_no_candidate_fits(buf, c, sizes.drop_last());
    }
}

/// The estimate is the stable minimum: a selected length `k` has, among all
/// candidates with enough data, the minimum mean pairwise normalized
/// distance, and it is the first candidate in iteration order to reach that
/// minimum — every qualifying candidate before it scores strictly greater.
/// Distances compare by cross products: the pair count is common to all
/// candidates, so `num(a)/a <= num(b)/b` is `num(a) * b <= num(b) * a`.
pub proof fn lemma_best_key_size_minimal(buf: Seq<u8>, c: int, sizes: Seq<usize>)
    requires
        forall|i: int| 0 <= i < sizes.len() ==> 1 <= #[trigger] sizes[i],
    ensures
        best_key_size(buf, c, sizes) matches Some(k) ==> {
            &&& forall|j: int|
                0 <= j < sizes.len() && candidate_fits(buf, c, #[trigger] sizes[j] as int)
                    ==> candidate_num(buf, c, k as int) * (sizes[j] as int) <= candidate_num(
                    buf,
                    c,
                    sizes[j] as int,
                ) * (k as int)
            &&& exists|i: int|
                0 <= i < sizes.len() && #[trigger] sizes[i] == k && (forall|j: int|
                    0 <= j < i && candidate_fits(buf, c, #[trigger] sizes[j] as int)
                        ==> candidate_num(buf, c, k as int) * (sizes[j] as int) < candidate_num(
                        buf,
                        c,
                        sizes[j] as int,
                    ) * (k as int))
        },
    decreases sizes.len(),
{
    if sizes.len() == 0 {
        return ;
    }
    let cs = sizes.drop_last();
    let b = best_key_size(buf, c, sizes);
    let prev = best_key_size(buf, c, cs);
    let kl = sizes.last();
    assert(forall|i: int| 0 <= i < cs.len() ==> cs[i] == sizes[i]);
    lemma_best_key_size_minimal(buf, c, cs);
    lemma_best_key_size_fits(buf, c, cs);
    if b is None {
        return ;
    }
    let k = b->Some_0;
    let nk = candidate_num(buf, c, k as int);
    if !candidate_fits(buf, c, kl as int) {
        // the last candidate is skipped, so the estimate and both clauses
        // carry over from the prefix
        let i0 = choose|i: int|
            0 <= i < cs.len() && #[trigger] cs[i] == k && (forall|j: int|
                0 <= j < i && candidate_fits(buf, c, #[trigger] cs[j] as int) ==> candidate_num(
                    buf,
                    c,
                    k as int,
                ) * (cs[j] as int) < candidate_num(buf, c, cs[j] as int) * (k as int));
        assert(sizes[i0] == k && (forall|j: int|
            0 <= j < i0 && candidate_fits(buf, c, #[trigger] sizes[j] as int) ==> nk * (
            sizes[j] as int) < candidate_num(buf, c, sizes[j] as int) * (k as int)));
    } else if prev is None {
        // nothing before the last candidate qualifies
        lemma_no_candidate_fits(buf, c, cs);
        let i0 = sizes.len() - 1;
        assert(sizes[i0] == k && (forall|j: int|
            0 <= j < i0 && candidate_fits(buf, c, #[trigger] sizes[j] as int) ==> nk * (
            sizes[j] as int) < candidate_num(buf, c, sizes[j] as int) * (k as int)));
    } else {
        let bk = prev->Some_0;
        let ib = choose|i: int| 0 <= i < cs.len() && cs[i] == bk;
        assert(1 <= bk);
        let nb = candidate_num(buf, c, bk as int);
        let nl = candidate_num(buf, c, kl as int);
        if nl * (bk as int) < nb * (kl as int) {
            // the last candidate strictly undercuts the previous best, and
            // through it every other qualifying candidate
            assert(k == kl);
            assert forall|j: int|
                0 <= j < sizes.len() && candidate_fits(buf, c, #[trigger] sizes[j] as int)
                    && j < sizes.len() - 1 implies nk * (sizes[j] as int) < candidate_num(
                buf,
                c,
                sizes[j] as int,
            ) * (k as int) by {
                crate::rational::lemma_frac_lt_trans(
                    nl,
                    kl as int,
                    nb,
                    bk as int,
                    candidate_num(buf, c, sizes[j] as int),
                    sizes[j] as int,
                );
            }
            let i0 = sizes.len() - 1;
            assert(sizes[i0] == k && (forall|j: int|
                0 <= j < i0 && candidate_fits(buf, c, #[trigger] sizes[j] as int) ==> nk * (
                sizes[j] as int) < candidate_num(buf, c, sizes[j] as int) * (k as int)));
        } else {
            // the previous best stands; it is at most the last candidate too
            assert(k == bk);
            assert(nk * (kl as int) <= nl * (k as int));
            let i0 = choose|i: int|
                0 <= i < cs.len() && #[trigger] cs[i] == k && (forall|j: int|
                    0 <= j < i && candidate_fits(buf, c, #[trigger] cs[j] as int)
                        ==> candidate_num(buf, c, k as int) * (cs[j] as int) < candidate_num(
                        buf,
                        c,
                        cs[j] as int,
                    ) * (k as int));
            assert(sizes[i0] == k && (forall|j: int|
                0 <= j < i0 && candidate_fits(buf, c, #[trigger] sizes[j] as int) ==> nk * (
                sizes[j] as int) < candidate_num(buf, c, sizes[j] as int) * (k as int)));
        }
    }
}

} // verus!
