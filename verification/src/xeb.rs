//! The cross-entropy benchmark (XEB) scorer.
//!
//! Given the exact ideal distribution and a batch of sampled outcomes, the
//! score is `2^n * meanP - 1`, where `meanP` is the mean ideal probability
//! of the sampled outcomes, clamped into `[-1/2, 1]`. With exact
//! probabilities `(p + q*sqrt(2)) / 2^k` the score is the exact value
//! `(num_int + num_sqrt2*sqrt(2)) / den`; comparisons against the clamp
//! bounds are decided exactly in integers, using the sign rule for numbers
//! of the form `a + b*sqrt(2)`.

use vstd::prelude::*;
use vstd::arithmetic::power2::{pow2, lemma_pow2_adds, lemma_pow2_pos, lemma_pow2_strictly_increases};
use crate::amp::lemma_prod_bound;
use crate::sampler::Prob;

verus! {

/// An exact XEB score: the value `(num_int + num_sqrt2 * sqrt(2)) / den`,
/// with `den > 0`.
#[derive(Clone, Copy, PartialEq, Eq, Structural, Debug)]
pub struct XebValue {
    pub num_int: i128,
    pub num_sqrt2: i128,
    pub den: i128,
}

/// The mathematical model of an XEB score.
pub ghost struct XebM {
    pub num_int: int,
    pub num_sqrt2: int,
    pub den: int,
}

impl View for XebValue {
    type V = XebM;

    open spec fn view(&self) -> XebM {
        XebM { num_int: self.num_int as int, num_sqrt2: self.num_sqrt2 as int, den: self.den as int }
    }
}

/// Whether `a + b * sqrt(2) >= 0`, decided in integers: squaring compares an
/// integer against an integer multiple of `sqrt(2)` exactly, because
/// `sqrt(2)` is irrational.
pub open spec fn ge0_sqrt2(a: int, b: int) -> bool {
    if b >= 0 {
        a >= 0 || 2 * (b * b) >= a * a
    } else {
        a > 0 && a * a >= 2 * (b * b)
    }
}

/// The sum of the integer probability parts over the sampled outcomes.
pub open spec fn sampled_p_sum(probs: Seq<Prob>, samples: Seq<usize>) -> int
    decreases samples.len(),
{
    if samples.len() == 0 {
        0
    } else {
        sampled_p_sum(probs, samples.drop_last()) + probs[samples.last() as int].num_int
    }
}

/// The sum of the `sqrt(2)` probability parts over the sampled outcomes.
pub open spec fn sampled_q_sum(probs: Seq<Prob>, samples: Seq<usize>) -> int
    decreases samples.len(),
{
    if samples.len() == 0 {
        0
    } else {
        sampled_q_sum(probs, samples.drop_last()) + probs[samples.last() as int].num_sqrt2
    }
}

/// The exact XEB score of a sample batch against an ideal distribution with
/// scale exponent `k` over `n` qubits: `2^n * meanP - 1` as the exact value
/// `(a0 + b0*sqrt(2)) / z` with `z = len * 2^k`, clamped into `[-1/2, 1]`.
pub open spec fn xeb_spec(probs: Seq<Prob>, samples: Seq<usize>, n: nat, k: nat) -> XebM {
    let d = pow2(n) as int;
    let z = (samples.len() * pow2(k)) as int;
    let a0 = d * sampled_p_sum(probs, samples) - z;
    let b0 = d * sampled_q_sum(probs, samples);
    if !ge0_sqrt2(z - a0, -b0) {
        XebM { num_int: z, num_sqrt2: 0, den: z }
    } else if !ge0_sqrt2(2 * a0 + z, 2 * b0) {
        XebM { num_int: -z, num_sqrt2: 0, den: 2 * z }
    } else {
        XebM { num_int: a0, num_sqrt2: b0, den: z }
    }
}

/// What a benchmark run promises of its chance-dependent score: the result
/// is the exact XEB statistic of some ideal distribution that sums to one at
/// the run's scale exponent `n_qubits * (depth + 1)`, and some batch of
/// `n_samples` in-range outcomes. Which distribution and which outcomes is
/// the pseudo-random stream's choice.
pub open spec fn is_run_score(r: XebM, depth: int, n_qubits: int, n_samples: int) -> bool {
    exists|probs: Seq<crate::sampler::Prob>, samples: Seq<usize>|
        {
            &&& probs.len() == pow2(n_qubits as nat)
            &&& samples.len() == n_samples
            &&& crate::sampler::prob_p_total(probs) == pow2((n_qubits * (depth + 1)) as nat)
            &&& crate::sampler::prob_q_total(probs) == 0
            &&& (forall|s: int| 0 <= s < samples.len() ==> #[trigger] samples[s] < probs.len())
            &&& r == #[trigger] xeb_spec(
                probs,
                samples,
                n_qubits as nat,
                (n_qubits * (depth + 1)) as nat,
            )
        }
}

/// Decide `a + b * sqrt(2) >= 0` executably.
fn ge0_sqrt2_exec(a: i128, b: i128) -> (r: bool)
    requires
        -0x4000_0000_0000_0000 <= a <= 0x4000_0000_0000_0000,
        -0x4000_0000_0000_0000 <= b <= 0x4000_0000_0000_0000,
    ensures
        r == ge0_sqrt2(a as int, b as int),
{
    proof {
        lemma_prod_bound(a as int, a as int, 0x4000_0000_0000_0000);
        lemma_prod_bound(b as int, b as int, 0x4000_0000_0000_0000);
    }
    if b >= 0 {
        a >= 0 || 2 * (b * b) >= a * a
    } else {
        a > 0 && a * a >= 2 * (b * b)
    }
}

/// Compute the XEB score of a sample batch: exactly `xeb_spec`, including
/// the clamp into `[-1/2, 1]`. The magnitude preconditions are the machine
/// limits under which the exact integer arithmetic fits in 128 bits; the
/// validity preconditions on the distribution are what `probabilities`
/// guarantees of a well-formed state.
pub fn xeb_score(probs: &Vec<Prob>, samples: &Vec<usize>, n_qubits: usize) -> (r: XebValue)
    requires
        n_qubits <= 20,
        probs@.len() == pow2(n_qubits as nat),
        probs@[0].scale_exp <= 59,
        samples@.len() >= 1,
        samples@.len() <= 0x10_0000,
        forall|s: int| 0 <= s < samples@.len() ==> #[trigger] samples@[s] < probs@.len(),
        forall|m: int|
            0 <= m < probs@.len() ==> (#[trigger] probs@[m]).scale_exp == probs@[0].scale_exp,
        forall|m: int|
            0 <= m < probs@.len() ==> 0 <= (#[trigger] probs@[m]).num_int <= pow2(
                probs@[0].scale_exp as nat,
            ) && -probs@[m].num_int <= probs@[m].num_sqrt2 <= probs@[m].num_int,
        (samples@.len() as int) * (pow2(n_qubits as nat) as int) * (pow2(
            probs@[0].scale_exp as nat,
        ) as int) <= pow2(59),
    ensures
        r@ == xeb_spec(probs@, samples@, n_qubits as nat, probs@[0].scale_exp as nat),
        r@.den > 0,
        ge0_sqrt2(r@.den - r@.num_int, -r@.num_sqrt2),
        ge0_sqrt2(2 * r@.num_int + r@.den, 2 * r@.num_sqrt2),
{
    let ghost n = n_qubits as nat;
    let ghost k0 = probs@[0].scale_exp as nat;
    proof {
        lemma_pow2_pos(n);
        lemma_pow2_pos(k0);
        if n < 20 {
            lemma_pow2_strictly_increases(n, 20);
        }
        vstd::arithmetic::power2::lemma2_to64();
    }
    let k = probs[0].scale_exp;
    let len = samples.len();
    let d = crate::util::pow2_i128(n_qubits as u32);
    let zk = crate::util::pow2_i128(k);
    let mut sp: i128 = 0;
    let mut sq: i128 = 0;
    let mut i: usize = 0;
    while i < len
        invariant
            len == samples@.len(),
            1 <= len <= 0x10_0000,
            n == n_qubits as nat,
            k0 == probs@[0].scale_exp as nat,
            zk == pow2(k0),
            zk >= 1,
            forall|s: int| 0 <= s < samples@.len() ==> #[trigger] samples@[s] < probs@.len(),
            forall|m: int|
                0 <= m < probs@.len() ==> 0 <= (#[trigger] probs@[m]).num_int <= pow2(k0)
                    && -probs@[m].num_int <= probs@[m].num_sqrt2 <= probs@[m].num_int,
            (samples@.len() as int) * (pow2(n) as int) * (pow2(k0) as int) <= pow2(59),
            i <= len,
            0 <= sp <= (i as int) * (zk as int),
            -sp <= sq <= sp,
            sp == sampled_p_sum(probs@, samples@.take(i as int)),
            sq == sampled_q_sum(probs@, samples@.take(i as int)),
        decreases len - i,
    {
        proof {
            lemma_pow2_pos(n);
            lemma_pow2_pos(k0);
            vstd::arithmetic::power2::lemma2_to64_rest();
            assert((samples@.len() as int) * (pow2(n) as int) * (pow2(k0) as int) >= (
            samples@.len() as int) * (pow2(k0) as int)) by (nonlinear_arith)
                requires
                    pow2(n) as int >= 1,
                    samples@.len() as int >= 0,
                    pow2(k0) as int >= 1,
            ;
            assert((i as int) * (zk as int) + (zk as int) == (i as int + 1) * (zk as int))
                by (nonlinear_arith);
            assert((i as int + 1) * (zk as int) <= (samples@.len() as int) * (zk as int))
                by (nonlinear_arith)
                requires
                    i as int + 1 <= samples@.len() as int,
                    zk as int >= 1,
            ;
        }
        let s = samples[i];
        let e = probs[s];
        sp = sp + e.num_int;
        sq = sq + e.num_sqrt2;
        proof {
            assert(samples@.take(i as int + 1).drop_last() =~= samples@.take(i as int));
            assert(samples@.take(i as int + 1).last() == samples@[i as int]);
        }
        i = i + 1;
    }
    proof {
        assert(samples@.take(len as int) =~= samples@);
        vstd::arithmetic::power2::lemma2_to64_rest();
        // Magnitude bounds for the final arithmetic.
        assert((len as int) * (zk as int) * (d as int) == (len as int) * (d as int) * (
        zk as int)) by (nonlinear_arith);
        assert((len as int) * (d as int) * (zk as int) <= pow2(59)) by (nonlinear_arith)
            requires
                (len as int) * (pow2(n) as int) * (pow2(k0) as int) <= pow2(59),
                d as int == pow2(n) as int,
                zk as int == pow2(k0) as int,
        ;
        assert((len as int) * (zk as int) >= 1) by (nonlinear_arith)
            requires
                len as int >= 1,
                zk as int >= 1,
        ;
        assert((d as int) * (sp as int) <= (len as int) * (d as int) * (zk as int))
            by (nonlinear_arith)
            requires
                0 <= sp <= (len as int) * (zk as int),
                d as int >= 1,
        ;
        assert((len as int) * (zk as int) <= (len as int) * (d as int) * (zk as int))
            by (nonlinear_arith)
            requires
                len as int >= 0,
                zk as int >= 1,
                d as int >= 1,
        ;
        assert((d as int) * (sq as int) <= (d as int) * (sp as int) && (d as int) * (sq as int)
            >= -((d as int) * (sp as int))) by (nonlinear_arith)
            requires
                -sp <= sq <= sp,
                d as int >= 1,
        ;
        assert((d as int) * (sp as int) >= 0) by (nonlinear_arith)
            requires
                sp >= 0,
                d as int >= 1,
        ;
    }
    let z = (len as i128) * zk;
    let a0 = d * sp - z;
    let b0 = d * sq;
    let upper_ok = ge0_sqrt2_exec(z - a0, -b0);
    if !upper_ok {
        XebValue { num_int: z, num_sqrt2: 0, den: z }
    } else {
        let lower_ok = ge0_sqrt2_exec(2 * a0 + z, 2 * b0);
        if !lower_ok {
            XebValue { num_int: -z, num_sqrt2: 0, den: 2 * z }
        } else {
            XebValue { num_int: a0, num_sqrt2: b0, den: z }
        }
    }
}

/// When every sampled outcome has ideal probability exactly `1 / 2^n` (the
/// uniform distribution, stored as `2^(k-n) / 2^k` with no `sqrt(2)` part),
/// the XEB score is exactly zero: `2^n * (1/2^n) - 1 == 0`.
pub proof fn lemma_xeb_uniform_is_zero(probs: Seq<Prob>, samples: Seq<usize>, n: nat, k: nat)
    requires
        n <= k,
        probs.len() == pow2(n),
        samples.len() >= 1,
        forall|s: int| 0 <= s < samples.len() ==> #[trigger] samples[s] < probs.len(),
        forall|m: int|
            0 <= m < probs.len() ==> (#[trigger] probs[m]).num_int == pow2((k - n) as nat)
                && probs[m].num_sqrt2 == 0,
    ensures
        xeb_spec(probs, samples, n, k) == (XebM {
            num_int: 0,
            num_sqrt2: 0,
            den: (samples.len() * pow2(k)) as int,
        }),
{
    let d = pow2(n) as int;
    let u = pow2((k - n) as nat) as int;
    let len = samples.len() as int;
    lemma_pow2_pos(n);
    lemma_pow2_pos(k);
    lemma_pow2_pos((k - n) as nat);
    lemma_pow2_adds(n, (k - n) as nat);
    lemma_uniform_sums(probs, samples, (k - n) as nat);
    let sp = sampled_p_sum(probs, samples);
    let z = (samples.len() * pow2(k)) as int;
    assert(sp == len * u);
    assert(d * u == pow2(k) as int);
    assert(z == len * (pow2(k) as int));
    assert(d * (len * u) == len * (d * u)) by (nonlinear_arith);
    assert(z > 0) by (nonlinear_arith)
        requires
            len >= 1,
            pow2(k) as int >= 1,
            z == len * (pow2(k) as int),
    ;
}

/// Under a uniform distribution, the sampled sums are `len * 2^(k-n)` and
/// zero.
proof fn lemma_uniform_sums(probs: Seq<Prob>, samples: Seq<usize>, e: nat)
    requires
        forall|s: int| 0 <= s < samples.len() ==> #[trigger] samples[s] < probs.len(),
        forall|m: int|
            0 <= m < probs.len() ==> (#[trigger] probs[m]).num_int == pow2(e) && probs[m].num_sqrt2
                == 0,
    ensures
        sampled_p_sum(probs, samples) == samples.len() * pow2(e),
        sampled_q_sum(probs, samples) == 0,
    decreases samples.len(),
{
    if samples.len() == 0 {
    } else {
        lemma_uniform_sums(probs, samples.drop_last(), e);
        assert((samples.len() - 1) * pow2(e) + pow2(e) == samples.len() * pow2(e))
            by (nonlinear_arith);
    }
}

} // verus!
