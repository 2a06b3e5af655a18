//! The adaptive 11-bit probability that every coded bit goes through.

use vstd::prelude::*;

verus! {

/// Number of bits a probability moves by at each update.
pub const BIT_MODEL_MOVE_BITS: u32 = 5;

/// Number of bits of a probability.
pub const BIT_MODEL_TOTAL_BITS: u32 = 11;

/// One, on the scale of the probabilities.
pub const BIT_MODEL_TOTAL: u32 = 2048;

/// The probability every model starts from: one half.
pub const BIT_MODEL_INIT: u32 = 1024;

/// The probabilities that the update rule can reach from `BIT_MODEL_INIT`.
/// They lie well inside the open interval from 0 to `BIT_MODEL_TOTAL`.
pub open spec fn valid_prob(p: u32) -> bool {
    31 <= p <= 2017
}

/// Every entry of `probs` is a reachable probability.
pub open spec fn valid_probs(probs: Seq<u32>) -> bool {
    forall|i: int| 0 <= i < probs.len() ==> valid_prob(#[trigger] probs[i])
}

/// The probability of a 0 bit after one more bit was seen: it moves a 32nd
/// of the way towards the bit that was seen.
pub open spec fn bm_update(p: u32, bit: bool) -> u32 {
    if bit {
        (p - p / 32) as u32
    } else {
        (p + (2048 - p) / 32) as u32
    }
}

/// The update rule keeps a probability within bounds.
pub proof fn lemma_bm_update_valid(p: u32, bit: bool)
    requires
        valid_prob(p),
    ensures
        valid_prob(bm_update(p, bit)),
        0 < bm_update(p, bit) < BIT_MODEL_TOTAL,
{
}

/// Updating one entry of a valid table leaves it valid.
pub proof fn lemma_valid_probs_update(probs: Seq<u32>, idx: int, bit: bool)
    requires
        valid_probs(probs),
        0 <= idx < probs.len(),
    ensures
        valid_probs(probs.update(idx, bm_update(probs[idx], bit))),
{
    lemma_bm_update_valid(probs[idx], bit);
}

/// 0 or 1, for a bit.
pub open spec fn b2i(bit: bool) -> int {
    if bit {
        1
    } else {
        0
    }
}

/// The probabilities that a model can hold: those from 1 to one less than
/// `BIT_MODEL_TOTAL`.
pub open spec fn prob_in_range(p: u32) -> bool {
    1 <= p < BIT_MODEL_TOTAL
}

/// A probability that the update rule reaches from one half lies within
/// the range, and the rule keeps every probability of the range within it.
pub proof fn lemma_bm_update_in_range(p: u32, bit: bool)
    requires
        prob_in_range(p),
    ensures
        prob_in_range(bm_update(p, bit)),
        valid_prob(p) ==> prob_in_range(p) && valid_prob(bm_update(p, bit)),
{
}

/// The probability after one more bit, for any probability that a model can
/// hold.
pub fn update(p: u32, bit: bool) -> (r: u32)
    requires
        prob_in_range(p),
    ensures
        r == bm_update(p, bit),
        prob_in_range(r),
        valid_prob(p) ==> valid_prob(r),
{
    if bit {
        p - p / 32
    } else {
        p + (BIT_MODEL_TOTAL - p) / 32
    }
}

/// A table of `n` probabilities, all at one half.
pub fn new_probs(n: usize) -> (probs: Vec<u32>)
    ensures
        probs@.len() == n,
        valid_probs(probs@),
        forall|i: int| 0 <= i < n ==> probs@[i] == BIT_MODEL_INIT,
{
    vec![BIT_MODEL_INIT; n]
}

/// Sets every probability of a table back to one half.
pub fn reset_probs(probs: &mut Vec<u32>)
    ensures
        final(probs)@.len() == old(probs)@.len(),
        valid_probs(final(probs)@),
        forall|i: int| 0 <= i < final(probs)@.len() ==> final(probs)@[i] == BIT_MODEL_INIT,
{
    let n: usize = probs.len();
    let mut i: usize = 0;
    while i < n
        invariant
            i <= n,
            probs@.len() == n,
            forall|j: int| 0 <= j < i ==> probs@[j] == BIT_MODEL_INIT,
        decreases n - i,
    {
        probs[i] = BIT_MODEL_INIT;
        i = i + 1;
    }
}

} // verus!
