//! The benchmark pipeline: pseudo-random circuit construction, sampling, and
//! scoring.
//!
//! A run builds a brickwork circuit: one Hadamard on every qubit, then
//! `depth` layers, each applying one randomly chosen root gate per qubit and
//! a set of controlled-phase pairs: nearest neighbours starting at an offset
//! that alternates with the layer's parity, plus, with probability 3/10 on
//! more than four qubits, one long-range pair between the lower and upper
//! halves. The final distribution is sampled and scored with the XEB
//! statistic.

use vstd::prelude::*;
use vstd::arithmetic::power2::{pow2, lemma_pow2_adds, lemma_pow2_pos, lemma2_to64};
use crate::date::{date_chars, format_date, is_ascii_digit_char, lemma_date_chars_layout};
use crate::gates::{Gate, gate_seq, ones_seq, lemma_hadamard_layer_step};
use crate::sim::QuantumSimulator;
use crate::xeb::{XebValue, xeb_score, xeb_spec, ge0_sqrt2, is_run_score, lemma_xeb_uniform_is_zero};
use crate::sampler::{prob_p_total, prob_q_total};
use crate::rng_ext::{rng_from_entropy, rng_below, instant_now, elapsed_ms, utc_today};

verus! {

/// One benchmark record: the circuit shape, the exact XEB score, the sample
/// count, the wall-clock runtime and the date of the run.
pub struct RcsResult {
    pub date: String,
    pub depth: usize,
    pub qubits: usize,
    pub xeb_score: XebValue,
    pub samples: usize,
    pub runtime_ms: u64,
}

/// The number of nearest-neighbour pairs `(i, i+1)` with `i` starting at
/// `off` and stepping by two below `n`.
pub open spec fn brick_count(n: int, off: int) -> int {
    (n - off) / 2
}

/// The controlled-phase pairs of one layer: nearest-neighbour bricks at the
/// layer's parity offset, plus possibly one random long-range pair drawn
/// between the lower and the upper half of the qubit range (only when
/// `n_qubits > 4`, with probability 3/10).
pub fn generate_cz_pairs(n_qubits: usize, rng: &mut rand_chacha::ChaCha8Rng, layer: usize) -> (r:
    Vec<(usize, usize)>)
    requires
        1 <= n_qubits <= 20,
    ensures
        ({
            let off = (layer % 2) as int;
            let cnt = brick_count(n_qubits as int, off);
            &&& (r@.len() == cnt || r@.len() == cnt + 1)
            &&& forall|t: int|
                0 <= t < cnt ==> #[trigger] r@[t] == ((off + 2 * t) as usize, (off + 2 * t
                    + 1) as usize)
            &&& forall|t: int|
                0 <= t < r@.len() ==> (#[trigger] r@[t]).0 < n_qubits && r@[t].1 < n_qubits
            &&& (r@.len() == cnt + 1 ==> n_qubits > 4 && r@[cnt].0 < n_qubits / 2 && n_qubits / 2
                <= r@[cnt].1 < n_qubits)
        }),
{
    let offset = layer % 2;
    let ghost off = offset as int;
    let ghost cnt = brick_count(n_qubits as int, off);
    let mut pairs: Vec<(usize, usize)> = Vec::new();
    let mut i = offset;
    while i + 1 < n_qubits
        invariant
            1 <= n_qubits <= 20,
            off == offset as int,
            offset <= 1,
            i >= offset,
            (i - offset) % 2 == 0,
            i <= n_qubits,
            pairs@.len() == (i - offset) / 2,
            forall|t: int|
                0 <= t < pairs@.len() ==> #[trigger] pairs@[t] == ((off + 2 * t) as usize, (off + 2
                    * t + 1) as usize),
            forall|t: int|
                0 <= t < pairs@.len() ==> (#[trigger] pairs@[t]).0 < n_qubits && pairs@[t].1
                    < n_qubits,
        decreases n_qubits - i,
    {
        pairs.push((i, i + 1));
        i = i + 2;
    }
    proof {
        assert(pairs@.len() == cnt);
    }
    if n_qubits > 4 {
        let coin = rng_below(rng, 10);
        if coin < 3 {
            let lo_half = n_qubits / 2;
            let q1 = rng_below(rng, lo_half as u32) as usize;
            let q2 = lo_half + (rng_below(rng, (n_qubits - lo_half) as u32) as usize);
            if q1 != q2 {
                pairs.push((q1, q2));
            }
        }
    }
    pairs
}

/// Run one random-circuit-sampling benchmark and return the exact XEB score.
///
/// The preconditions are the machine limits of the exact representation: the
/// final scale exponent `n_qubits * (depth + 1)` must stay within the
/// coordinate budget, and the score arithmetic must fit in 128 bits.
///
/// The pseudo-random stream chooses the circuit and the outcomes, so the
/// score itself cannot be pinned; what holds of every run is: the result is
/// the exact XEB statistic of some unit distribution at the run's scale and
/// some batch of `n_samples` in-range outcomes (`is_run_score`), its
/// denominator is the batch size times the scale (doubled when the lower
/// clamp fired), it is clamped into `[-1/2, 1]`, and at depth zero -- where
/// the distribution is exactly uniform whatever was drawn -- it is exactly
/// zero.
pub fn run_rcs_with_samples(depth: usize, n_qubits: usize, n_samples: usize) -> (r: XebValue)
    requires
        1 <= n_qubits <= 20,
        1 <= n_samples <= 0x10_0000,
        n_qubits * (depth + 1) <= 59,
        (n_samples as int) * pow2((n_qubits + n_qubits * (depth + 1)) as nat) <= pow2(59),
    ensures
        is_run_score(r@, depth as int, n_qubits as int, n_samples as int),
        r@.den == n_samples * pow2((n_qubits * (depth + 1)) as nat) || r@.den == 2 * (n_samples
            * pow2((n_qubits * (depth + 1)) as nat)),
        depth == 0 ==> r@.num_int == 0 && r@.num_sqrt2 == 0,
        r@.den > 0,
        ge0_sqrt2(r@.den - r@.num_int, -r@.num_sqrt2),
        ge0_sqrt2(2 * r@.num_int + r@.den, 2 * r@.num_sqrt2),
{
    let ghost n = n_qubits as nat;
    let ghost kf = (n_qubits * (depth + 1)) as nat;
    let mut sim = QuantumSimulator::new(n_qubits);
    let mut rng = rng_from_entropy();
    proof {
        lemma2_to64();
        assert(sim@ =~= ones_seq(pow2(n), pow2(0) as int));
    }

    // Initial layer: Hadamard on every qubit, establishing the exactly
    // uniform superposition.
    let mut qb: usize = 0;
    while qb < n_qubits
        invariant
            sim.wf(),
            sim.n_spec() == n_qubits,
            qb <= n_qubits,
            n_qubits * (depth + 1) <= 59,
            1 <= n_qubits <= 20,
            sim.k_spec() == qb,
            n == n_qubits as nat,
            sim@ == ones_seq(pow2(n), pow2(qb as nat) as int),
        decreases n_qubits - qb,
    {
        proof {
            assert(n_qubits * (depth + 1) >= n_qubits * 1) by (nonlinear_arith)
                requires
                    depth + 1 >= 1,
                    n_qubits >= 1,
            ;
        }
        let ghost before = sim@;
        sim.hadamard(qb);
        proof {
            lemma_hadamard_layer_step(n, qb as nat);
            assert(sim@ == gate_seq(ones_seq(pow2(n), pow2(qb as nat) as int), qb as nat,
                Gate::Hadamard));
            assert(sim@ =~= ones_seq(pow2(n), pow2((qb + 1) as nat) as int));
        }
        qb = qb + 1;
    }

    // Evolution layers: random single-qubit roots, then controlled-phase
    // pairs.
    let mut dd: usize = 0;
    while dd < depth
        invariant
            sim.wf(),
            sim.n_spec() == n_qubits,
            dd <= depth,
            n_qubits * (depth + 1) <= 59,
            1 <= n_qubits <= 20,
            sim.k_spec() == n_qubits * (dd + 1),
            n == n_qubits as nat,
            depth == 0 ==> sim@ == ones_seq(pow2(n), pow2(n) as int),
        decreases depth - dd,
    {
        let mut qb: usize = 0;
        while qb < n_qubits
            invariant
                sim.wf(),
                sim.n_spec() == n_qubits,
                qb <= n_qubits,
                dd < depth,
                n_qubits * (depth + 1) <= 59,
                1 <= n_qubits <= 20,
                sim.k_spec() == n_qubits * (dd + 1) + qb,
            decreases n_qubits - qb,
        {
            proof {
                assert(n_qubits * (dd + 1) + qb < n_qubits * (depth + 1)) by (nonlinear_arith)
                    requires
                        dd < depth,
                        qb < n_qubits,
                        n_qubits >= 1,
                ;
            }
            sim.random_single_gate(qb);
            qb = qb + 1;
        }
        let pairs = generate_cz_pairs(n_qubits, &mut rng, dd);
        let mut t: usize = 0;
        while t < pairs.len()
            invariant
                sim.wf(),
                sim.n_spec() == n_qubits,
                t <= pairs@.len(),
                1 <= n_qubits <= 20,
                forall|j: int|
                    0 <= j < pairs@.len() ==> (#[trigger] pairs@[j]).0 < n_qubits && pairs@[j].1
                        < n_qubits,
                sim.k_spec() == n_qubits * (dd + 1) + n_qubits,
            decreases pairs@.len() - t,
        {
            let (a, b) = pairs[t];
            sim.cz(a, b);
            t = t + 1;
        }
        proof {
            assert(n_qubits * (dd + 1) + n_qubits == n_qubits * (dd + 2)) by (nonlinear_arith);
        }
        dd = dd + 1;
    }
    proof {
        assert(sim.k_spec() == kf);
    }

    // The exact ideal distribution, then the sample batch.
    let probs = sim.probabilities();
    proof {
        lemma_pow2_pos(n);
    }
    let ghost k0 = probs@[0].scale_exp as nat;
    proof {
        assert(k0 == kf);
        lemma2_to64();
        if depth == 0 {
            // Depth zero: the state is the exactly uniform superposition,
            // so every probability entry is 1 / 2^n, stored as 1 / 2^kf
            // with kf == n.
            assert(kf == n);
            assert forall|m: int| 0 <= m < probs@.len() implies (#[trigger] probs@[m]).num_int
                == pow2((kf - n) as nat) && probs@[m].num_sqrt2 == 0 by {
                assert(sim@[m] == (crate::amp::AmpM { x0: 1, x1: 0, x2: 0, x3: 0 }));
            }
        }
    }
    let mut samples: Vec<usize> = Vec::new();
    let mut s: usize = 0;
    while s < n_samples
        invariant
            sim.wf(),
            sim.n_spec() == n_qubits,
            sim.k_spec() == kf,
            n == n_qubits as nat,
            1 <= n_qubits <= 20,
            s <= n_samples,
            samples@.len() == s,
            forall|j: int| 0 <= j < samples@.len() ==> #[trigger] samples@[j] < pow2(n),
        decreases n_samples - s,
    {
        let outcome = sim.measure();
        samples.push(outcome);
        s = s + 1;
    }

    proof {
        lemma_pow2_adds(n, kf);
        assert((n_samples as int) * ((pow2(n) * pow2(kf)) as int) == (n_samples as int) * (
        pow2(n) as int) * (pow2(kf) as int)) by (nonlinear_arith);
    }
    let score = xeb_score(&probs, &samples, n_qubits);
    proof {
        // The run's own distribution and batch witness `is_run_score`.
        let n_i = n_qubits as int;
        let d_i = depth as int;
        assert(n == n_i as nat && kf == (n_i * (d_i + 1)) as nat);
        assert(probs@.len() == pow2(n_i as nat));
        assert(prob_p_total(probs@) == pow2((n_i * (d_i + 1)) as nat));
        assert(prob_q_total(probs@) == 0);
        assert(samples@.len() == n_samples as int);
        assert(score@ == xeb_spec(probs@, samples@, n_i as nat, (n_i * (d_i + 1)) as nat));
        assert(is_run_score(score@, depth as int, n_qubits as int, n_samples as int));
        // The denominator of `xeb_spec` is the batch size times the scale,
        // doubled when the lower clamp fired.
        let z = (samples@.len() * pow2(kf)) as int;
        assert(z == n_samples * pow2(kf));
        assert(score@.den == z || score@.den == 2 * z);
        // At depth zero the distribution is exactly uniform, so the score is
        // exactly zero whatever was sampled.
        if depth == 0 {
            lemma_xeb_uniform_is_zero(probs@, samples@, n, kf);
        }
    }
    score
}

/// Run a benchmark with the default sample count.
pub fn run_rcs(depth: usize, n_qubits: usize) -> (r: XebValue)
    requires
        1 <= n_qubits <= 20,
        n_qubits * (depth + 1) <= 59,
        1024 * pow2((n_qubits + n_qubits * (depth + 1)) as nat) <= pow2(59),
    ensures
        is_run_score(r@, depth as int, n_qubits as int, 1024),
        r@.den == 1024 * pow2((n_qubits * (depth + 1)) as nat) || r@.den == 2 * (1024 * pow2((
        n_qubits * (depth + 1)) as nat)),
        depth == 0 ==> r@.num_int == 0 && r@.num_sqrt2 == 0,
        r@.den > 0,
        ge0_sqrt2(r@.den - r@.num_int, -r@.num_sqrt2),
        ge0_sqrt2(2 * r@.num_int + r@.den, 2 * r@.num_sqrt2),
{
    run_rcs_with_samples(depth, n_qubits, 1024)
}

/// Run a full benchmark with timing and metadata. The record carries the
/// requested circuit shape and sample count, a score that is the exact XEB
/// of the run (see `run_rcs_with_samples`), clamped into `[-1/2, 1]`, and a
/// date in the ten-character `YYYY-MM-DD` layout.
pub fn run_benchmark(depth: usize, n_qubits: usize, n_samples: usize) -> (r: RcsResult)
    requires
        1 <= n_qubits <= 20,
        1 <= n_samples <= 0x10_0000,
        n_qubits * (depth + 1) <= 59,
        (n_samples as int) * pow2((n_qubits + n_qubits * (depth + 1)) as nat) <= pow2(59),
    ensures
        r.depth == depth,
        r.qubits == n_qubits,
        r.samples == n_samples,
        is_run_score(r.xeb_score@, depth as int, n_qubits as int, n_samples as int),
        r.xeb_score@.den == n_samples * pow2((n_qubits * (depth + 1)) as nat) || r.xeb_score@.den
            == 2 * (n_samples * pow2((n_qubits * (depth + 1)) as nat)),
        depth == 0 ==> r.xeb_score@.num_int == 0 && r.xeb_score@.num_sqrt2 == 0,
        r.xeb_score@.den > 0,
        ge0_sqrt2(r.xeb_score@.den - r.xeb_score@.num_int, -r.xeb_score@.num_sqrt2),
        ge0_sqrt2(2 * r.xeb_score@.num_int + r.xeb_score@.den, 2 * r.xeb_score@.num_sqrt2),
        r.date@.len() == 10,
        r.date@[4] == '-',
        r.date@[7] == '-',
        forall|i: int|
            0 <= i < 10 && i != 4 && i != 7 ==> is_ascii_digit_char(#[trigger] r.date@[i]),
        exists|y: int, mo: int, d: int|
            1 <= mo <= 12 && 1 <= d <= 31 && r.date@ == #[trigger] date_chars(y, mo, d),
{
    let start = instant_now();
    let xeb = run_rcs_with_samples(depth, n_qubits, n_samples);
    let runtime_ms = elapsed_ms(&start);
    let (year, month, day) = utc_today();
    let date = format_date(year, month, day);
    proof {
        lemma_date_chars_layout(year as int, month as int, day as int);
        assert(date@ == date_chars(year as int, month as int, day as int));
    }
    RcsResult { date, depth, qubits: n_qubits, xeb_score: xeb, samples: n_samples, runtime_ms }
}

} // verus!

