//! Single-byte XOR breaking by exhaustive charset search, and full
//! repeating-key recovery by per-column breaking of the transposed
//! ciphertext.

use crate::model::{score_num, FreqModel, Score};
use crate::xor_cipher::{xor_with_byte, xor_with_byte_spec, xor_with_key_spec};
use vstd::arithmetic::div_mod::lemma_fundamental_div_mod;
use vstd::prelude::*;

verus! {

/// The (byte, score numerator) pair that the charset search settles on:
/// candidates are tried in charset order, and a candidate replaces the
/// current best whenever its score is greater *or equal*, so on a tie the
/// later candidate wins. An empty charset yields the sentinel `(0, 0)`.
pub open spec fn charset_best(nums: Seq<u64>, charset: Seq<u8>, s: Seq<u8>) -> (u8, int)
    recommends
        nums.len() == 256,
    decreases charset.len(),
{
    if charset.len() == 0 {
        (0u8, 0int)
    } else {
        let prev = charset_best(nums, charset.drop_last(), s);
        let sc = score_num(nums, xor_with_byte_spec(s, charset.last()));
        if sc >= prev.1 {
            (charset.last(), sc)
        } else {
            prev
        }
    }
}

/// Find the best single-byte key for `string`: decrypt with every candidate
/// byte of `charset` in order, score against `model`, and keep a candidate
/// whenever its score is at least the best so far (so ties go to the later
/// candidate). An empty charset yields the sentinel `(0, score 0)`.
///
/// Both the returned score and every intermediate score share the model's
/// denominator, so scores compare as their numerators do.
pub fn max_char_with(model: &FreqModel, charset: &[u8], string: &[u8]) -> (r: (u8, Score))
    requires
        model.wf(),
    ensures
        r.0 == charset_best(model.nums@, charset@, string@).0,
        r.1.num as int == charset_best(model.nums@, charset@, string@).1,
        r.1.den == model.den,
{
    let mut max_char: u8 = 0x00;
    let mut max_num: u128 = 0;
    let mut i: usize = 0;
    while i < charset.len()
        invariant
            model.wf(),
            i <= charset.len(),
            max_char == charset_best(model.nums@, charset@.take(i as int), string@).0,
            max_num as int == charset_best(model.nums@, charset@.take(i as int), string@).1,
        decreases charset.len() - i,
    {
        let decrypted = xor_with_byte(string, charset[i]);
        let score = crate::model::score_with(model, decrypted.as_slice());
        proof {
            assert(charset@.take(i + 1).drop_last() =~= charset@.take(i as int));
        }
        if score.num >= max_num {
            max_num = score.num;
            max_char = charset[i];
        }
        i = i + 1;
    }
    proof {
        assert(charset@.take(charset@.len() as int) =~= charset@);
    }
    (max_char, Score { num: max_num, den: model.den })
}

/// Break a single-byte XOR cipher: alias of the charset search.
pub fn break_xor_char(model: &FreqModel, charset: &[u8], string: &[u8]) -> (r: (u8, Score))
    requires
        model.wf(),
    ensures
        r.0 == charset_best(model.nums@, charset@, string@).0,
        r.1.num as int == charset_best(model.nums@, charset@, string@).1,
        r.1.den == model.den,
{
    max_char_with(model, charset, string)
}

/// The search result is the maximum: no candidate scores above it, and when
/// the charset is non-empty the returned byte is the *last* charset element
/// that reaches the maximum (every later candidate scores strictly below it).
pub proof fn lemma_charset_best_is_max(nums: Seq<u64>, charset: Seq<u8>, s: Seq<u8>)
    requires
        nums.len() == 256,
    ensures
        charset_best(nums, charset, s).1 >= 0,
        forall|i: int|
            0 <= i < charset.len() ==> score_num(nums, xor_with_byte_spec(s, #[trigger] charset[i]))
                <= charset_best(nums, charset, s).1,
        charset.len() > 0 ==> exists|i: int|
            0 <= i < charset.len() && #[trigger] charset[i] == charset_best(nums, charset, s).0
                && score_num(nums, xor_with_byte_spec(s, charset[i])) == charset_best(
                nums,
                charset,
                s,
            ).1 && (forall|j: int|
                i < j < charset.len() ==> score_num(
                    nums,
                    xor_with_byte_spec(s, #[trigger] charset[j]),
                ) < charset_best(nums, charset, s).1),
    decreases charset.len(),
{
    if charset.len() == 0 {
        return ;
    }
    let best = charset_best(nums, charset, s);
    let prev = charset_best(nums, charset.drop_last(), s);
    let sc = score_num(nums, xor_with_byte_spec(s, charset.last()));
    lemma_charset_best_is_max(nums, charset.drop_last(), s);
    assert(forall|i: int| 0 <= i < charset.len() - 1 ==> charset.drop_last()[i] == charset[i]);
    if sc >= prev.1 {
        let w = charset.len() - 1;
        assert(charset[w] == best.0 && score_num(nums, xor_with_byte_spec(s, charset[w])) == best.1
            && (forall|j: int|
            w < j < charset.len() ==> score_num(nums, xor_with_byte_spec(s, #[trigger] charset[j]))
                < best.1));
    } else {
        let cs = charset.drop_last();
        crate::model::lemma_score_num_bounds(nums, xor_with_byte_spec(s, charset.last()));
        assert(cs.len() > 0);
        let w = choose|i: int|
            0 <= i < cs.len() && #[trigger] cs[i] == charset_best(nums, cs, s).0 && score_num(
                nums,
                xor_with_byte_spec(s, cs[i]),
            ) == charset_best(nums, cs, s).1 && (forall|j: int|
                i < j < cs.len() ==> score_num(nums, xor_with_byte_spec(s, #[trigger] cs[j]))
                    < charset_best(nums, cs, s).1);
        assert(0 <= w < cs.len() && cs[w] == charset[w]);
        assert forall|j: int| w < j < charset.len() implies score_num(
            nums,
            xor_with_byte_spec(s, #[trigger] charset[j]),
        ) < best.1 by {
            if j < charset.len() - 1 {
                assert(cs[j] == charset[j]);
            } else {
                assert(charset[j] == charset.last());
            }
        }
        assert(charset[w] == best.0 && score_num(nums, xor_with_byte_spec(s, charset[w]))
            == best.1);
    }
}

/// Length of column `i` of a transposition of `len` bytes at stride `stride`:
/// the number of positions `i, i + stride, i + 2*stride, ...` below `len`.
pub open spec fn column_len(len: int, stride: int, i: int) -> int
    recommends
        stride >= 1,
        0 <= i < stride,
{
    if i >= len {
        0
    } else {
        (len - i - 1) / stride + 1
    }
}

/// Column `i` of the transposition of `data` at stride `stride`: every byte
/// of `data` at a position congruent to `i` modulo `stride`, in order.
pub open spec fn column_spec(data: Seq<u8>, stride: int, i: int) -> Seq<u8>
    recommends
        stride >= 1,
        0 <= i < stride,
{
    Seq::new(column_len(data.len() as int, stride, i) as nat, |j: int| data[i + j * stride])
}

proof fn lemma_mul_le(a: int, b: int, c: int)
    by (nonlinear_arith)
    requires
        a <= b,
        c >= 0,
    ensures
        a * c <= b * c,
{
}

/// Every in-range index of a column points inside the data.
proof fn lemma_column_index(len: int, stride: int, i: int, j: int)
    requires
        stride >= 1,
        0 <= i < len,
        0 <= j < column_len(len, stride, i),
    ensures
        i + j * stride < len,
{
    let t = len - i - 1;
    let q = t / stride;
    lemma_fundamental_div_mod(t, stride);
    lemma_mul_le(j, q, stride);
    assert(q * stride <= t);
}

/// Transposition undoes the key cycle: in a ciphertext produced by
/// repeating-key XOR, column `i` — the bytes at positions congruent to `i`
/// modulo the key length — is the corresponding plaintext column XOR-ed with
/// the single key byte `key[i]`, so each column is an independent
/// single-byte XOR problem.
pub proof fn lemma_column_of_xor(key: Seq<u8>, data: Seq<u8>, i: int)
    requires
        key.len() >= 1,
        0 <= i < key.len(),
    ensures
        column_spec(xor_with_key_spec(key, data), key.len() as int, i) == xor_with_byte_spec(
            column_spec(data, key.len() as int, i),
            key[i],
        ),
{
    let len = key.len() as int;
    let ct = xor_with_key_spec(key, data);
    assert forall|j: int| 0 <= j < column_len(data.len() as int, len, i) implies column_spec(
        ct,
        len,
        i,
    )[j] == xor_with_byte_spec(column_spec(data, len, i), key[i])[j] by {
        lemma_column_index(data.len() as int, len, i, j);
        vstd::arithmetic::div_mod::lemma_mod_multiples_vanish(j, i, len);
        vstd::arithmetic::div_mod::lemma_small_mod(i as nat, len as nat);
        assert((i + j * len) % len == i);
    }
    assert(column_spec(ct, len, i) =~= xor_with_byte_spec(column_spec(data, len, i), key[i]));
}

/// Transpose `buffer` into `stride` columns: column `i` holds the bytes at
/// positions congruent to `i` modulo `stride`. When `buffer.len()` is not a
/// multiple of `stride`, the last `buffer.len() % stride` columns are one
/// byte shorter.
pub fn transpose(buffer: &[u8], stride: usize) -> (r: Vec<Vec<u8>>)
    requires
        stride >= 1,
    ensures
        r@.len() == stride,
        forall|i: int| 0 <= i < stride ==> (#[trigger] r@[i])@ == column_spec(
            buffer@,
            stride as int,
            i,
        ),
{
    let mut cols: Vec<Vec<u8>> = Vec::new();
    let mut i: usize = 0;
    while i < stride
        invariant
            stride >= 1,
            i <= stride,
            cols@.len() == i,
            forall|c: int| 0 <= c < i ==> (#[trigger] cols@[c])@ == column_spec(
                buffer@,
                stride as int,
                c,
            ),
        decreases stride - i,
    {
        let count: usize = if i >= buffer.len() {
            0
        } else {
            (buffer.len() - i - 1) / stride + 1
        };
        assert(count == column_len(buffer@.len() as int, stride as int, i as int));
        let mut col: Vec<u8> = Vec::new();
        let mut j: usize = 0;
        while j < count
            invariant
                stride >= 1,
                i < buffer.len() || count == 0,
                count == column_len(buffer@.len() as int, stride as int, i as int),
                j <= count,
                col@.len() == j,
                forall|jj: int| 0 <= jj < j ==> col@[jj] == buffer@[i + jj * (stride as int)],
            decreases count - j,
        {
            proof {
                lemma_column_index(buffer@.len() as int, stride as int, i as int, j as int);
            }
            col.push(buffer[i + j * stride]);
            j = j + 1;
        }
        proof {
            assert(col@ =~= column_spec(buffer@, stride as int, i as int));
        }
        cols.push(col);
        i = i + 1;
    }
    cols
}

/// Recover the full repeating key of length `keysize`: transpose the
/// ciphertext into `keysize` columns (all bytes at the same position modulo
/// `keysize` were XOR-ed with the same key byte) and take, for each column in
/// increasing index order, the byte the single-byte breaker settles on.
///
/// The key always has exactly `keysize` bytes; a `keysize` of 0 yields the
/// degenerate empty key and should be treated by callers as "estimation
/// failed", not as a genuine key.
pub fn break_xor_key(model: &FreqModel, charset: &[u8], keysize: usize, string: &[u8]) -> (key: Vec<
    u8,
>)
    requires
        model.wf(),
    ensures
        key@.len() == keysize,
        forall|i: int| 0 <= i < keysize ==> key@[i] == charset_best(
            model.nums@,
            charset@,
            column_spec(string@, keysize as int, i),
        ).0,
{
    let mut key: Vec<u8> = Vec::new();
    if keysize == 0 {
        return key;
    }
    let cols = transpose(string, keysize);
    let mut i: usize = 0;
    while i < cols.len()
        invariant
            model.wf(),
            cols@.len() == keysize,
            i <= keysize,
            key@.len() == i,
            forall|c: int| 0 <= c < keysize ==> (#[trigger] cols@[c])@ == column_spec(
                string@,
                keysize as int,
                c,
            ),
            forall|c: int| 0 <= c < i ==> key@[c] == charset_best(
                model.nums@,
                charset@,
                column_spec(string@, keysize as int, c),
            ).0,
        decreases cols@.len() - i,
    {
        let (ch, _score) = break_xor_char(model, charset, cols[i].as_slice());
        key.push(ch);
        i = i + 1;
    }
    key
}

} // verus!
