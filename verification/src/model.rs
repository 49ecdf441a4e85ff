//! Byte-frequency model and the plaintext scorer.
//!
//! The model maps each byte value to a non-negative exact rational weight.
//! All weights share one denominator, so it is held once and only the 256
//! numerators are stored; a byte absent from the model has numerator 0, which
//! contributes nothing to a score, exactly as absence does.

use vstd::prelude::*;

verus! {

/// Frequency model: `nums[b]` is the numerator of byte `b`'s weight, `den`
/// the denominator shared by every weight.
pub struct FreqModel {
    pub nums: Vec<u64>,
    pub den: u64,
}

impl FreqModel {
    /// Well-formed: one numerator per byte value, positive denominator.
    pub open spec fn wf(&self) -> bool {
        self.nums@.len() == 256 && self.den >= 1
    }

    /// Build a model from per-byte weight numerators and a shared denominator.
    pub fn new(nums: Vec<u64>, den: u64) -> (r: Self)
        requires
            nums@.len() == 256,
            den >= 1,
        ensures
            r.wf(),
            r.nums@ == nums@,
            r.den == den,
    {
        FreqModel { nums, den }
    }

    /// Whether `b` carries any weight in the model.
    pub fn contains(&self, b: u8) -> (r: bool)
        requires
            self.wf(),
        ensures
            r <==> self.nums@[b as int] > 0,
    {
        self.nums[b as usize] > 0
    }

    /// The numerator of `b`'s weight; its value is `weight(b) / den`.
    pub fn weight_num(&self, b: u8) -> (r: u64)
        requires
            self.wf(),
        ensures
            r == self.nums@[b as int],
    {
        self.nums[b as usize]
    }
}

/// An exact rational score: `num / den`.
#[derive(Clone, Copy, Debug, PartialEq, Eq, Structural)]
pub struct Score {
    pub num: u128,
    pub den: u64,
}

/// Numerator of the score of `s` under the weight numerators `nums`: the sum
/// of the weights of the symbols of `s`, over the shared denominator.
pub open spec fn score_num(nums: Seq<u64>, s: Seq<u8>) -> int
    recommends
        nums.len() == 256,
    decreases s.len(),
{
    if s.len() == 0 {
        0
    } else {
        score_num(nums, s.drop_last()) + nums[s.last() as int]
    }
}

pub proof fn lemma_score_num_bounds(nums: Seq<u64>, s: Seq<u8>)
    requires
        nums.len() == 256,
    ensures
        0 <= score_num(nums, s) <= s.len() * 0xffff_ffff_ffff_ffff,
    decreases s.len(),
{
    if s.len() > 0 {
        lemma_score_num_bounds(nums, s.drop_last());
        assert((s.len() - 1) * 0xffff_ffff_ffff_ffff + 0xffff_ffff_ffff_ffff == s.len()
            * 0xffff_ffff_ffff_ffff) by (nonlinear_arith);
    }
}

/// Score `string` against `model`: the sum of the model weights of its
/// symbols, as an exact rational. Symbols without weight contribute 0; there
/// are no failure modes.
pub fn score_with(model: &FreqModel, string: &[u8]) -> (r: Score)
    requires
        model.wf(),
    ensures
        r.num as int == score_num(model.nums@, string@),
        r.den == model.den,
{
    let mut num: u128 = 0;
    let mut i: usize = 0;
    while i < string.len()
        invariant
            model.wf(),
            i <= string.len(),
            num as int == score_num(model.nums@, string@.take(i as int)),
            num <= (i as u128) * 0xffff_ffff_ffff_ffff,
        decreases string.len() - i,
    {
        proof {
            assert(string@.take(i + 1).drop_last() =~= string@.take(i as int));
            assert((i as int) * 0xffff_ffff_ffff_ffff + 0xffff_ffff_ffff_ffff == (i + 1)
                * 0xffff_ffff_ffff_ffff) by (nonlinear_arith);
            assert((i + 1) * 0xffff_ffff_ffff_ffff <= 0xffff_ffff_ffff_ffff
                * 0xffff_ffff_ffff_ffff) by (nonlinear_arith)
                requires
                    i + 1 <= 0xffff_ffff_ffff_ffff,
            ;
        }
        num = num + model.nums[string[i] as usize] as u128;
        i = i + 1;
    }
    proof {
        assert(string@.take(string@.len() as int) =~= string@);
    }
    Score { num, den: model.den }
}

/// Scorer monotonicity: if at every position the weight of `a`'s symbol is at
/// least the weight of `b`'s symbol (an absent symbol has weight 0), then `a`
/// scores at least as high as `b`. Both scores share the model's denominator,
/// so the numerators compare as the rationals do.
pub proof fn lemma_score_monotonic(nums: Seq<u64>, a: Seq<u8>, b: Seq<u8>)
    requires
        nums.len() == 256,
        a.len() == b.len(),
        forall|i: int| 0 <= i < a.len() ==> nums[#[trigger] a[i] as int] >= nums[b[i] as int],
    ensures
        score_num(nums, a) >= score_num(nums, b),
    decreases a.len(),
{
    if a.len() > 0 {
        assert(forall|i: int| 0 <= i < a.len() - 1 ==> a.drop_last()[i] == a[i] && b.drop_last()[i]
            == b[i]);
        lemma_score_monotonic(nums, a.drop_last(), b.drop_last());
        assert(a.last() == a[a.len() - 1] && b.last() == b[b.len() - 1]);
    }
}

} // verus!
