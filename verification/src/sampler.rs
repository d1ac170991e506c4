//! Measurement sampling.
//!
//! A measurement outcome is drawn by inverse-transform sampling: walk the
//! cumulative sum of per-index weights and return the first index where the
//! cumulative sum exceeds the random draw, falling back to the last index
//! when the walk never reaches the draw.
//!
//! The weights are the exact probabilities rendered in fixed point: entry
//! `m` of a state with scale exponent `k` has probability
//! `(p + q*sqrt(2)) / 2^k`, and its weight is
//! `floor((p * 2^32 + q * floor(sqrt(2) * 2^32)) / 2^k)`, a 2^-32-resolution
//! rendering of that probability. The weights of a well-formed state sum to
//! at most 2^32, and a 32-bit draw plays the role of the unit uniform.

use vstd::prelude::*;
use vstd::arithmetic::power2::pow2;
use vstd::arithmetic::div_mod::lemma_fundamental_div_mod;
use crate::amp::{AmpM, p_norm, q_norm};

verus! {

/// `floor(sqrt(2) * 2^32)`: the fixed-point rendering of `sqrt(2)` used for
/// weights, characterized by `SQRT2_FIXED^2 <= 2 * 2^64 < (SQRT2_FIXED+1)^2`.
pub const SQRT2_FIXED: u64 = 6074000999;

/// One exact probability: the value `(num_int + num_sqrt2 * sqrt(2)) / 2^scale_exp`.
#[derive(Clone, Copy, PartialEq, Eq, Structural, Debug)]
pub struct Prob {
    pub num_int: i128,
    pub num_sqrt2: i128,
    pub scale_exp: u32,
}

/// The sum of the integer parts over a probability vector.
pub open spec fn prob_p_total(probs: Seq<Prob>) -> int
    decreases probs.len(),
{
    if probs.len() == 0 {
        0
    } else {
        prob_p_total(probs.drop_last()) + probs.last().num_int
    }
}

/// The sum of the `sqrt(2)` parts over a probability vector.
pub open spec fn prob_q_total(probs: Seq<Prob>) -> int
    decreases probs.len(),
{
    if probs.len() == 0 {
        0
    } else {
        prob_q_total(probs.drop_last()) + probs.last().num_sqrt2
    }
}

/// A probability vector that mirrors a state entrywise has the state's norm
/// sums as its totals.
pub proof fn lemma_prob_totals(probs: Seq<Prob>, s: Seq<AmpM>)
    requires
        probs.len() == s.len(),
        forall|m: int|
            0 <= m < probs.len() ==> (#[trigger] probs[m]).num_int == p_norm(s[m])
                && probs[m].num_sqrt2 == q_norm(s[m]),
    ensures
        prob_p_total(probs) == crate::gates::sum_p(s),
        prob_q_total(probs) == crate::gates::sum_q(s),
    decreases probs.len(),
{
    if probs.len() > 0 {
        lemma_prob_totals(probs.drop_last(), s.drop_last());
    }
}

/// The fixed-point weight of one state entry under scale exponent `k`.
pub open spec fn weight_of(a: AmpM, k: nat) -> int {
    (p_norm(a) * 0x1_0000_0000 + q_norm(a) * (SQRT2_FIXED as int)) / (pow2(k) as int)
}

/// The weight vector of a whole state.
pub open spec fn weight_seq(s: Seq<AmpM>, k: nat) -> Seq<u64> {
    Seq::new(s.len(), |m: int| weight_of(s[m], k) as u64)
}

/// The index selected by inverse-transform sampling, walking from index `i`
/// with cumulative weight `acc`: the first index where the cumulative sum
/// exceeds the draw `u`, the last index as fallback.
pub open spec fn sample_rec(w: Seq<u64>, u: int, i: int, acc: int) -> int
    decreases w.len() - i,
{
    if i < 0 || i >= w.len() - 1 {
        w.len() - 1
    } else if acc + w[i] > u {
        i
    } else {
        sample_rec(w, u, i + 1, acc + w[i])
    }
}

/// The index selected for draw `u` over the weight vector `w`.
pub open spec fn sample_spec(w: Seq<u64>, u: int) -> int {
    sample_rec(w, u, 0, 0)
}

/// Inverse-transform sampling over a weight vector: returns exactly
/// `sample_spec(w@, u)`. The bound on the entries and the length keep the
/// cumulative sum well inside 64 bits.
pub fn sample_from_weights(w: &Vec<u64>, u: u32) -> (r: usize)
    requires
        w@.len() >= 1,
        w@.len() <= 0x20_0000,
        forall|m: int| 0 <= m < w@.len() ==> #[trigger] w@[m] <= 0x10_0000_0000,
    ensures
        r < w@.len(),
        r == sample_spec(w@, u as int),
{
    let len = w.len();
    let mut cum: u64 = 0;
    let mut i: usize = 0;
    while i < len
        invariant
            len == w@.len(),
            1 <= len <= 0x20_0000,
            forall|m: int| 0 <= m < w@.len() ==> #[trigger] w@[m] <= 0x10_0000_0000,
            i <= len,
            cum <= (i as int) * 0x10_0000_0000,
            sample_spec(w@, u as int) == sample_rec(w@, u as int, i as int, cum as int),
        decreases len - i,
    {
        proof {
            assert((i as int) * 0x10_0000_0000 + 0x10_0000_0000 == (i as int + 1)
                * 0x10_0000_0000) by (nonlinear_arith);
            assert((i as int) * 0x10_0000_0000 <= 0x20_0000 * 0x10_0000_0000) by (nonlinear_arith)
                requires
                    0 <= i as int <= 0x20_0000,
            ;
        }
        cum = cum + w[i];
        if (u as u64) < cum {
            return i;
        }
        i = i + 1;
    }
    len - 1
}

/// The weight numerator of a nonnegative probability is nonnegative: from
/// `p >= 0` and `p^2 >= 2*q^2` (the probability `(p + q*sqrt(2))` is a
/// squared magnitude) and `SQRT2_FIXED^2 <= 2 * 2^64`.
pub proof fn lemma_weight_num_nonneg(p: int, q: int)
    requires
        p >= 0,
        p * p >= 2 * (q * q),
    ensures
        p * 0x1_0000_0000 + q * (SQRT2_FIXED as int) >= 0,
{
    let c = SQRT2_FIXED as int;
    if q >= 0 {
        assert(p * 0x1_0000_0000 >= 0 && q * c >= 0) by (nonlinear_arith)
            requires
                p >= 0,
                q >= 0,
                c > 0,
        ;
    } else {
        let t = -q;
        assert(t * t == q * q) by (nonlinear_arith)
            requires
                t == -q,
        ;
        assert(c * c < 0x2_0000_0000_0000_0000);
        assert((p * 0x1_0000_0000) * (p * 0x1_0000_0000) == (p * p) * 0x1_0000_0000_0000_0000)
            by (nonlinear_arith);
        assert((t * c) * (t * c) == (t * t) * (c * c)) by (nonlinear_arith);
        assert((p * p) * 0x1_0000_0000_0000_0000 >= (2 * (t * t)) * 0x1_0000_0000_0000_0000)
            by (nonlinear_arith)
            requires
                p * p >= 2 * (t * t),
        ;
        assert((t * t) * (c * c) <= (t * t) * 0x2_0000_0000_0000_0000) by (nonlinear_arith)
            requires
                c * c < 0x2_0000_0000_0000_0000,
        ;
        assert((2 * (t * t)) * 0x1_0000_0000_0000_0000 == (t * t) * 0x2_0000_0000_0000_0000)
            by (nonlinear_arith);
        assert(p * 0x1_0000_0000 >= t * c) by (nonlinear_arith)
            requires
                p * 0x1_0000_0000 >= 0,
                t * c >= 0,
                (p * 0x1_0000_0000) * (p * 0x1_0000_0000) >= (t * c) * (t * c),
        ;
        assert(t * c >= 0) by (nonlinear_arith)
            requires
                t >= 0,
                c > 0,
        ;
    }
}

/// The weight numerator of a probability bounded by the whole distribution
/// is bounded by `2^k * 2^34`.
pub proof fn lemma_weight_num_le(p: int, q: int, k: nat)
    requires
        0 <= p <= pow2(k),
        -p <= q <= p,
    ensures
        p * 0x1_0000_0000 + q * (SQRT2_FIXED as int) <= pow2(k) as int * 0x4_0000_0000,
{
    let c = SQRT2_FIXED as int;
    assert(q * c <= p * c) by (nonlinear_arith)
        requires
            q <= p,
            c > 0,
    ;
    assert(p * 0x1_0000_0000 + p * c == p * (0x1_0000_0000 + c)) by (nonlinear_arith);
    assert(p * (0x1_0000_0000 + c) <= pow2(k) as int * (0x1_0000_0000 + c)) by (nonlinear_arith)
        requires
            0 <= p <= pow2(k) as int,
            c > 0,
    ;
    assert(pow2(k) as int * (0x1_0000_0000 + c) <= pow2(k) as int * 0x4_0000_0000)
        by (nonlinear_arith)
        requires
            0 <= 0x1_0000_0000 + c <= 0x4_0000_0000,
            pow2(k) as int >= 0,
    ;
}

/// Division bound: a nonnegative value at most `d * bound` divides by `d` to
/// at most `bound`.
pub proof fn lemma_div_le(a: int, d: int, bound: int)
    requires
        0 <= a,
        d > 0,
        bound >= 0,
        a <= d * bound,
    ensures
        0 <= a / d <= bound,
{
    lemma_fundamental_div_mod(a, d);
    let s = a / d;
    let r = a % d;
    assert(s >= 0) by (nonlinear_arith)
        requires
            a == d * s + r,
            0 <= r < d,
            a >= 0,
            d > 0,
    ;
    assert(s <= bound) by (nonlinear_arith)
        requires
            a == d * s + r,
            0 <= r < d,
            a <= d * bound,
            d > 0,
    ;
}

} // verus!
