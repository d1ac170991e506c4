//! The state-vector simulator.
//!
//! `QuantumSimulator` owns the exact amplitude vector of length `2^n` and a
//! pseudo-random stream. Amplitudes are integer coordinate quadruples over
//! the eighth roots of unity (see `amp`), divided by the global factor
//! `sqrt(2)^scale_k`; every single-qubit gate raises `scale_k` by one.
//!
//! The well-formedness invariant `wf` carries exact unitarity: the integer
//! parts of the squared entry magnitudes sum to `2^scale_k` and the
//! `sqrt(2)` parts sum to zero, so the probabilities sum to exactly one.

use vstd::prelude::*;
use vstd::arithmetic::power2::{pow2, lemma_pow2_adds, lemma_pow2_pos, lemma_pow2_strictly_increases, lemma2_to64, lemma2_to64_rest};
use vstd::arithmetic::div_mod::lemma_div_plus_one;
use crate::amp::{Amp, AmpM, coords_le, m_neg, p_norm, q_norm, lemma_coord_bound, lemma_norm_nonneg, lemma_prod_bound};
use crate::gates::{Gate, digit, gate_lo, gate_hi, gate_seq, cz_seq, basis_seq, sum_p, sum_q,
    lemma_gate_sum, lemma_cz_sum, lemma_sum_basis, lemma_elem_le_sum};
use crate::rng_ext::{rng_from_seed, rng_from_entropy, rng_below, rng_next_u32};
use crate::sampler::{Prob, SQRT2_FIXED, prob_p_total, prob_q_total, weight_of, weight_seq,
    sample_spec, sample_from_weights, lemma_prob_totals, lemma_weight_num_nonneg,
    lemma_weight_num_le, lemma_div_le};

verus! {

/// The largest scale exponent the simulator accepts before a further gate
/// could overflow the 64-bit amplitude coordinates: every coordinate is
/// bounded by `2^(scale_k / 2)` thanks to unitarity.
pub const SCALE_LIMIT: u32 = 80;

/// A state-vector simulator over `n_qubits` qubits.
pub struct QuantumSimulator {
    n_qubits: usize,
    scale_k: u32,
    state: Vec<Amp>,
    rng: rand_chacha::ChaCha8Rng,
}

impl View for QuantumSimulator {
    type V = Seq<AmpM>;

    closed spec fn view(&self) -> Seq<AmpM> {
        self.state@.map_values(|a: Amp| a@)
    }
}

impl QuantumSimulator {
    /// The number of qubits.
    pub closed spec fn n_spec(&self) -> nat {
        self.n_qubits as nat
    }

    /// The global scale exponent: the state entries are the coordinate
    /// quadruples divided by `sqrt(2)^k_spec()`.
    pub closed spec fn k_spec(&self) -> nat {
        self.scale_k as nat
    }

    /// Well-formedness: the vector has length `2^n`, the scale exponent is
    /// within the coordinate budget, and the state is a unit vector, exactly:
    /// the squared entry magnitudes are `(p + q*sqrt(2)) / 2^k` with
    /// `sum p == 2^k` and `sum q == 0`.
    pub open spec fn wf(&self) -> bool {
        &&& 1 <= self.n_spec() <= 20
        &&& self@.len() == pow2(self.n_spec())
        &&& self.k_spec() <= SCALE_LIMIT
        &&& sum_p(self@) == pow2(self.k_spec())
        &&& sum_q(self@) == 0
    }

    /// Build the all-zero vector with entry one at `idx`.
    fn basis_vec(dim: usize, idx: usize) -> (r: Vec<Amp>)
        requires
            idx < dim,
        ensures
            r@.map_values(|a: Amp| a@) =~= basis_seq(dim as nat, idx as int),
    {
        let mut state: Vec<Amp> = Vec::new();
        let mut m: usize = 0;
        while m < dim
            invariant
                m <= dim,
                idx < dim,
                state@.len() == m,
                forall|j: int|
                    0 <= j < m ==> (#[trigger] state@[j])@ == basis_seq(
                        dim as nat,
                        idx as int,
                    )[j],
            decreases dim - m,
        {
            if m == idx {
                state.push(Amp::one());
            } else {
                state.push(Amp::zero());
            }
            m = m + 1;
        }
        state
    }

    /// Create a simulator over `n_qubits` qubits in the first basis state,
    /// with a pseudo-random stream seeded from the operating system.
    ///
    /// The qubit count is bounded by the memory needed for the `2^n`-entry
    /// vector; the caller validates it, as with the scale budget.
    pub fn new(n_qubits: usize) -> (r: QuantumSimulator)
        requires
            1 <= n_qubits <= 20,
        ensures
            r.wf(),
            r.n_spec() == n_qubits,
            r.k_spec() == 0,
            r@ == basis_seq(pow2(n_qubits as nat), 0),
    {
        let rng = rng_from_entropy();
        Self::with_rng(n_qubits, rng)
    }

    /// Create a simulator with the pseudo-random stream seeded from `seed`,
    /// for reproducible runs.
    pub fn with_seed(n_qubits: usize, seed: u64) -> (r: QuantumSimulator)
        requires
            1 <= n_qubits <= 20,
        ensures
            r.wf(),
            r.n_spec() == n_qubits,
            r.k_spec() == 0,
            r@ == basis_seq(pow2(n_qubits as nat), 0),
    {
        let rng = rng_from_seed(seed);
        Self::with_rng(n_qubits, rng)
    }

    /// Shared constructor body.
    fn with_rng(n_qubits: usize, rng: rand_chacha::ChaCha8Rng) -> (r: QuantumSimulator)
        requires
            1 <= n_qubits <= 20,
        ensures
            r.wf(),
            r.n_spec() == n_qubits,
            r.k_spec() == 0,
            r@ == basis_seq(pow2(n_qubits as nat), 0),
    {
        proof {
            lemma2_to64();
            if (n_qubits as nat) < 20 {
                lemma_pow2_strictly_increases(n_qubits as nat, 20);
            }
            lemma_pow2_pos(n_qubits as nat);
        }
        let dim = crate::util::pow2_usize(n_qubits);
        let state = Self::basis_vec(dim, 0);
        let r = QuantumSimulator { n_qubits, scale_k: 0, state, rng };
        proof {
            assert(r@ =~= basis_seq(pow2(n_qubits as nat), 0));
            lemma_sum_basis(pow2(n_qubits as nat), 0);
        }
        r
    }

    /// The number of qubits.
    pub fn n_qubits(&self) -> (r: usize)
        ensures
            r == self.n_spec(),
    {
        self.n_qubits
    }

    /// The dimension of the state vector, `2^n`.
    pub fn dim(&self) -> (r: usize)
        requires
            self.wf(),
        ensures
            r == pow2(self.n_spec()),
    {
        self.state.len()
    }

    /// The global scale exponent.
    pub fn scale_exponent(&self) -> (r: u32)
        ensures
            r == self.k_spec(),
    {
        self.scale_k
    }

    /// The raw coordinates of the state entry at `idx` (the complex
    /// amplitude is the coordinate combination divided by
    /// `sqrt(2)^scale_exponent()`).
    pub fn amplitude(&self, idx: usize) -> (r: Amp)
        requires
            self.wf(),
            idx < pow2(self.n_spec()),
        ensures
            r@ == self@[idx as int],
    {
        self.state[idx]
    }

    /// Restore the first basis state in place and reset the scale.
    pub fn reset(&mut self)
        requires
            old(self).wf(),
        ensures
            final(self).wf(),
            final(self).n_spec() == old(self).n_spec(),
            final(self).k_spec() == 0,
            final(self)@ == basis_seq(pow2(old(self).n_spec()), 0),
    {
        proof {
            lemma_pow2_pos(old(self).n_spec());
        }
        self.set_basis_state(0);
    }

    /// Set the state to the basis vector with entry one at `idx`, resetting
    /// the scale exponent.
    pub fn set_basis_state(&mut self, idx: usize)
        requires
            old(self).wf(),
            idx < pow2(old(self).n_spec()),
        ensures
            final(self).wf(),
            final(self).n_spec() == old(self).n_spec(),
            final(self).k_spec() == 0,
            final(self)@ == basis_seq(pow2(old(self).n_spec()), idx as int),
    {
        proof {
            lemma_pow2_pos(old(self).n_spec());
        }
        let dim = self.state.len();
        let state = Self::basis_vec(dim, idx);
        self.state = state;
        self.scale_k = 0;
        proof {
            assert(self@ =~= basis_seq(pow2(self.n_spec()), idx as int));
            lemma_sum_basis(pow2(self.n_spec()), idx as int);
            lemma2_to64();
        }
    }

    /// The exact probability distribution over the `2^n` basis states: entry
    /// `m` is `(p + q*sqrt(2)) / 2^k` where `p + q*sqrt(2)` is the squared
    /// magnitude of the state entry's coordinates and `k` is the scale
    /// exponent. By the unitarity invariant the integer parts sum to `2^k`
    /// and the `sqrt(2)` parts to zero: the probabilities sum to exactly one.
    pub fn probabilities(&self) -> (r: Vec<Prob>)
        requires
            self.wf(),
        ensures
            r@.len() == pow2(self.n_spec()),
            forall|m: int|
                0 <= m < r@.len() ==> (#[trigger] r@[m]).num_int == p_norm(self@[m])
                    && r@[m].num_sqrt2 == q_norm(self@[m]) && r@[m].scale_exp == self.k_spec(),
            forall|m: int|
                0 <= m < r@.len() ==> 0 <= (#[trigger] r@[m]).num_int <= pow2(self.k_spec())
                    && -r@[m].num_int <= r@[m].num_sqrt2 <= r@[m].num_int && r@[m].num_int
                    * r@[m].num_int >= 2 * (r@[m].num_sqrt2 * r@[m].num_sqrt2),
            prob_p_total(r@) == pow2(self.k_spec()),
            prob_q_total(r@) == 0,
            sum_p(self@) == pow2(self.k_spec()),
            sum_q(self@) == 0,
    {
        let ghost k = self.k_spec();
        let dim = self.state.len();
        let mut r: Vec<Prob> = Vec::new();
        let mut m: usize = 0;
        while m < dim
            invariant
                self.wf(),
                k == self.k_spec(),
                dim == self.state@.len(),
                dim == self@.len(),
                m <= dim,
                r@.len() == m,
                forall|j: int|
                    0 <= j < m ==> (#[trigger] r@[j]).num_int == p_norm(self@[j])
                        && r@[j].num_sqrt2 == q_norm(self@[j]) && r@[j].scale_exp == k,
            decreases dim - m,
        {
            let a = self.state[m];
            proof {
                assert(a@ == self@[m as int]);
                lemma_state_coords(self@, k, m as int);
                lemma_norm_nonneg(self@[m as int]);
                lemma_prod_bound(a@.x0, a@.x0, 0x100_0000_0000);
                lemma_prod_bound(a@.x1, a@.x1, 0x100_0000_0000);
                lemma_prod_bound(a@.x2, a@.x2, 0x100_0000_0000);
                lemma_prod_bound(a@.x3, a@.x3, 0x100_0000_0000);
                lemma_prod_bound(a@.x0, a@.x1, 0x100_0000_0000);
                lemma_prod_bound(a@.x0, a@.x3, 0x100_0000_0000);
                lemma_prod_bound(a@.x1, a@.x2, 0x100_0000_0000);
                lemma_prod_bound(a@.x2, a@.x3, 0x100_0000_0000);
            }
            let x0 = a.x0 as i128;
            let x1 = a.x1 as i128;
            let x2 = a.x2 as i128;
            let x3 = a.x3 as i128;
            let p = x0 * x0 + x1 * x1 + x2 * x2 + x3 * x3;
            let q = x0 * x1 - x0 * x3 + x1 * x2 + x2 * x3;
            proof {
                assert(p == p_norm(self@[m as int]) && q == q_norm(self@[m as int]));
            }
            r.push(Prob { num_int: p, num_sqrt2: q, scale_exp: self.scale_k });
            m = m + 1;
        }
        proof {
            assert forall|j: int| 0 <= j < r@.len() implies 0 <= (#[trigger] r@[j]).num_int
                <= pow2(k) && -r@[j].num_int <= r@[j].num_sqrt2 <= r@[j].num_int && r@[j].num_int
                * r@[j].num_int >= 2 * (r@[j].num_sqrt2 * r@[j].num_sqrt2) by {
                lemma_state_coords(self@, k, j);
                lemma_norm_nonneg(self@[j]);
            }
            lemma_prob_totals(r@, self@);
        }
        r
    }

    /// Draw one measurement outcome: render the distribution as fixed-point
    /// weights, consume one 32-bit draw from the pseudo-random stream, and
    /// walk the cumulative sum (see `sampler`). The state itself is
    /// unchanged: sampling is with replacement.
    pub fn measure(&mut self) -> (r: usize)
        requires
            old(self).wf(),
        ensures
            final(self).wf(),
            final(self)@ == old(self)@,
            final(self).n_spec() == old(self).n_spec(),
            final(self).k_spec() == old(self).k_spec(),
            r < pow2(old(self).n_spec()),
            exists|u: int|
                0 <= u < 0x1_0000_0000 && r == sample_spec(
                    weight_seq(old(self)@, old(self).k_spec()),
                    u,
                ),
    {
        let ghost k = self.k_spec();
        let ghost n = self.n_spec();
        proof {
            lemma_pow2_pos(n);
            if n < 20 {
                lemma_pow2_strictly_increases(n, 20);
            }
            lemma2_to64();
        }
        let dim = self.state.len();
        let denom = crate::util::pow2_i128(self.scale_k);
        let mut w: Vec<u64> = Vec::new();
        let mut m: usize = 0;
        while m < dim
            invariant
                self.wf(),
                k == self.k_spec(),
                n == self.n_spec(),
                dim == self.state@.len(),
                dim == self@.len(),
                denom == pow2(k),
                m <= dim,
                w@.len() == m,
                forall|j: int| 0 <= j < m ==> #[trigger] w@[j] == weight_seq(self@, k)[j],
                forall|j: int| 0 <= j < m ==> #[trigger] w@[j] <= 0x10_0000_0000,
            decreases dim - m,
        {
            let a = self.state[m];
            proof {
                assert(a@ == self@[m as int]);
                lemma_state_coords(self@, k, m as int);
                lemma_norm_nonneg(self@[m as int]);
                lemma_prod_bound(a@.x0, a@.x0, 0x100_0000_0000);
                lemma_prod_bound(a@.x1, a@.x1, 0x100_0000_0000);
                lemma_prod_bound(a@.x2, a@.x2, 0x100_0000_0000);
                lemma_prod_bound(a@.x3, a@.x3, 0x100_0000_0000);
                lemma_prod_bound(a@.x0, a@.x1, 0x100_0000_0000);
                lemma_prod_bound(a@.x0, a@.x3, 0x100_0000_0000);
                lemma_prod_bound(a@.x1, a@.x2, 0x100_0000_0000);
                lemma_prod_bound(a@.x2, a@.x3, 0x100_0000_0000);
            }
            let x0 = a.x0 as i128;
            let x1 = a.x1 as i128;
            let x2 = a.x2 as i128;
            let x3 = a.x3 as i128;
            let p = x0 * x0 + x1 * x1 + x2 * x2 + x3 * x3;
            let q = x0 * x1 - x0 * x3 + x1 * x2 + x2 * x3;
            proof {
                assert(p == p_norm(self@[m as int]) && q == q_norm(self@[m as int]));
                lemma_weight_num_nonneg(p as int, q as int);
                lemma_weight_num_le(p as int, q as int, k);
                lemma_pow2_pos(k);
                if k < 80 {
                    lemma_pow2_strictly_increases(k, 80);
                }
                lemma_pow2_adds(40, 40);
                lemma2_to64_rest();
                assert(pow2(k) as int * 0x4_0000_0000 <= pow2(80) as int * 0x4_0000_0000)
                    by (nonlinear_arith)
                    requires
                        0 <= pow2(k) <= pow2(80),
                ;
            }
            let num = p * 0x1_0000_0000 + q * (SQRT2_FIXED as i128);
            proof {
                lemma_div_le(num as int, denom as int, 0x4_0000_0000);
            }
            let wv = ((num as u128) / (denom as u128)) as u64;
            proof {
                assert(wv == weight_of(self@[m as int], k));
                assert(weight_seq(self@, k)[m as int] == weight_of(self@[m as int], k) as u64);
            }
            w.push(wv);
            m = m + 1;
        }
        let u = rng_next_u32(&mut self.rng);
        proof {
            assert(w@ =~= weight_seq(self@, k));
        }
        let r = sample_from_weights(&w, u);
        proof {
            assert(r == sample_spec(weight_seq(old(self)@, k), u as int));
        }
        r
    }

    /// Apply the Hadamard gate to `qubit`.
    pub fn hadamard(&mut self, qubit: usize)
        requires
            old(self).wf(),
            qubit < old(self).n_spec(),
            old(self).k_spec() < SCALE_LIMIT,
        ensures
            final(self).wf(),
            final(self).n_spec() == old(self).n_spec(),
            final(self).k_spec() == old(self).k_spec() + 1,
            final(self)@ == gate_seq(old(self)@, qubit as nat, Gate::Hadamard),
    {
        self.apply_single(qubit, Gate::Hadamard);
    }

    /// Apply one of the three random-evolution gates to `qubit`, chosen
    /// uniformly by the simulator's pseudo-random stream.
    pub fn random_single_gate(&mut self, qubit: usize)
        requires
            old(self).wf(),
            qubit < old(self).n_spec(),
            old(self).k_spec() < SCALE_LIMIT,
        ensures
            final(self).wf(),
            final(self).n_spec() == old(self).n_spec(),
            final(self).k_spec() == old(self).k_spec() + 1,
            final(self)@ == gate_seq(old(self)@, qubit as nat, Gate::SqrtX) || final(self)@
                == gate_seq(old(self)@, qubit as nat, Gate::SqrtY) || final(self)@ == gate_seq(
                old(self)@,
                qubit as nat,
                Gate::SqrtW,
            ),
    {
        let t = rng_below(&mut self.rng, 3);
        let g = if t == 0 {
            Gate::SqrtX
        } else if t == 1 {
            Gate::SqrtY
        } else {
            Gate::SqrtW
        };
        self.apply_single(qubit, g);
    }

    /// Apply a single-qubit gate: for every index pair differing exactly in
    /// the binary digit at place `2^qubit`, replace the entry pair by the
    /// gate's butterfly; its implicit `1/sqrt(2)` raises the scale
    /// exponent by one.
    fn apply_single(&mut self, qubit: usize, g: Gate)
        requires
            old(self).wf(),
            qubit < old(self).n_spec(),
            old(self).k_spec() < SCALE_LIMIT,
        ensures
            final(self).wf(),
            final(self).n_spec() == old(self).n_spec(),
            final(self).k_spec() == old(self).k_spec() + 1,
            final(self)@ == gate_seq(old(self)@, qubit as nat, g),
    {
        let ghost orig = self@;
        let ghost q = qubit as nat;
        let ghost n = self.n_spec();
        let ghost k = self.k_spec();
        proof {
            lemma_pow2_pos(q);
            lemma_pow2_pos(n);
            if (q as int) < 20 {
                lemma_pow2_strictly_increases(q, 20);
            }
            lemma2_to64();
        }
        let dim = self.state.len();
        let step = crate::util::pow2_usize(qubit);
        proof {
            assert forall|m: int| 0 <= m < dim && digit(m, q) == 1 implies m >= step by {
                crate::gates::lemma_digit_one_ge(m, q);
            }
        }
        let mut i: usize = 0;
        while i < dim
            invariant
                self.n_qubits == old(self).n_qubits,
                self.scale_k == old(self).scale_k,
                self.state@.len() == dim,
                orig == old(self)@,
                q == qubit as nat,
                n == self.n_spec(),
                k == self.k_spec(),
                k <= SCALE_LIMIT,
                orig.len() == dim,
                dim == pow2(n),
                step == pow2(q),
                q < n,
                i <= dim,
                step >= 1,
                sum_p(orig) == pow2(k),
                forall|m: int|
                    0 <= m < dim ==> #[trigger] self@[m] == (if (digit(m, q) == 0 && m < i) || (
                    digit(m, q) == 1 && m < i + step) {
                        gate_seq(orig, q, g)[m]
                    } else {
                        orig[m]
                    }),
            decreases dim - i,
        {
            let ghost pre = self@;
            let cond = (i / step) % 2 == 0;
            if cond {
                proof {
                    assert(digit(i as int, q) == 0);
                    crate::util::lemma_partner_in_range(i as int, q, n);
                }
                let j = i + step;
                let a = self.state[i];
                let b = self.state[j];
                proof {
                    assert(digit(j as int, q) == 1);
                    assert(a@ == pre[i as int] && pre[i as int] == orig[i as int]);
                    assert(b@ == pre[j as int] && pre[j as int] == orig[j as int]);
                    lemma_state_coords(orig, k, i as int);
                    lemma_state_coords(orig, k, j as int);
                }
                let (lo, hi) = match g {
                    Gate::Hadamard => (a.add(b), a.sub(b)),
                    Gate::SqrtX => ((a.sub(b.rot2())).rot(), (b.sub(a.rot2())).rot()),
                    Gate::SqrtY => ((a.sub(b)).rot(), (a.add(b)).rot()),
                    Gate::SqrtW => (a.sub(b.rot()), (a.rot_inv()).add(b)),
                };
                proof {
                    assert(lo@ == gate_lo(g, orig[i as int], orig[j as int]));
                    assert(hi@ == gate_hi(g, orig[i as int], orig[j as int]));
                }
                self.state[i] = lo;
                self.state[j] = hi;
                proof {
                    assert(self@ =~= pre.update(i as int, lo@).update(j as int, hi@));
                    assert(gate_seq(orig, q, g)[i as int] == gate_lo(
                        g,
                        orig[i as int],
                        orig[i + pow2(q)],
                    ));
                    assert(gate_seq(orig, q, g)[j as int] == gate_hi(
                        g,
                        orig[j - pow2(q)],
                        orig[j as int],
                    ));
                    assert forall|m: int| 0 <= m < dim implies #[trigger] self@[m] == (if (digit(
                        m,
                        q,
                    ) == 0 && m < i + 1) || (digit(m, q) == 1 && m < i + 1 + step) {
                        gate_seq(orig, q, g)[m]
                    } else {
                        orig[m]
                    }) by {
                        if m == i {
                            assert(self@[m] == lo@);
                        } else if m == j {
                            assert(self@[m] == hi@);
                        } else {
                            assert(self@[m] == pre[m]);
                        }
                    }
                }
            } else {
                proof {
                    lemma_div_plus_one(i as int, step as int);
                    assert(digit(i as int, q) == 1);
                    assert((i + step) as int / step as int == i as int / step as int + 1);
                    assert(digit(i + step, q) == 0);
                    assert forall|m: int| 0 <= m < dim implies #[trigger] self@[m] == (if (digit(
                        m,
                        q,
                    ) == 0 && m < i + 1) || (digit(m, q) == 1 && m < i + 1 + step) {
                        gate_seq(orig, q, g)[m]
                    } else {
                        orig[m]
                    }) by {
                        assert(self@[m] == pre[m]);
                    }
                }
            }
            i = i + 1;
        }
        proof {
            assert forall|m: int| 0 <= m < dim implies self@[m] == gate_seq(orig, q, g)[m] by {
                assert(self@[m] == (if (digit(m, q) == 0 && m < i) || (digit(m, q) == 1 && m < i
                    + step) {
                    gate_seq(orig, q, g)[m]
                } else {
                    orig[m]
                }));
            }
            assert(self@ =~= gate_seq(orig, q, g));
            lemma_gate_sum(orig, q, n, g);
            lemma_pow2_adds(k, 1);
            lemma2_to64();
        }
        self.scale_k = self.scale_k + 1;
    }

    /// Apply the controlled-phase gate: negate every entry whose binary
    /// digits at places `2^q1` and `2^q2` are both one. The scale is
    /// unchanged, and so are both norm sums.
    pub fn cz(&mut self, q1: usize, q2: usize)
        requires
            old(self).wf(),
            q1 < old(self).n_spec(),
            q2 < old(self).n_spec(),
        ensures
            final(self).wf(),
            final(self).n_spec() == old(self).n_spec(),
            final(self).k_spec() == old(self).k_spec(),
            final(self)@ == cz_seq(old(self)@, q1 as nat, q2 as nat),
    {
        let ghost orig = self@;
        let ghost qa = q1 as nat;
        let ghost qb = q2 as nat;
        let ghost n = self.n_spec();
        let ghost k = self.k_spec();
        proof {
            lemma_pow2_pos(qa);
            lemma_pow2_pos(qb);
            if (q1 as int) < 20 {
                lemma_pow2_strictly_increases(qa, 20);
            }
            if (q2 as int) < 20 {
                lemma_pow2_strictly_increases(qb, 20);
            }
            lemma2_to64();
        }
        let dim = self.state.len();
        let p1 = crate::util::pow2_usize(q1);
        let p2 = crate::util::pow2_usize(q2);
        let mut i: usize = 0;
        while i < dim
            invariant
                self.n_qubits == old(self).n_qubits,
                self.scale_k == old(self).scale_k,
                self.state@.len() == dim,
                orig == old(self)@,
                qa == q1 as nat,
                qb == q2 as nat,
                k == self.k_spec(),
                k <= SCALE_LIMIT,
                orig.len() == dim,
                p1 == pow2(qa),
                p2 == pow2(qb),
                p1 >= 1,
                p2 >= 1,
                i <= dim,
                sum_p(orig) == pow2(k),
                forall|m: int|
                    0 <= m < dim ==> #[trigger] self@[m] == (if m < i {
                        cz_seq(orig, qa, qb)[m]
                    } else {
                        orig[m]
                    }),
            decreases dim - i,
        {
            let ghost pre = self@;
            if (i / p1) % 2 == 1 && (i / p2) % 2 == 1 {
                proof {
                    assert(digit(i as int, qa) == 1 && digit(i as int, qb) == 1);
                }
                let a = self.state[i];
                proof {
                    assert(a@ == pre[i as int] && pre[i as int] == orig[i as int]);
                    lemma_state_coords(orig, k, i as int);
                }
                self.state[i] = a.neg();
                proof {
                    assert(self@ =~= pre.update(i as int, m_neg(orig[i as int])));
                }
            } else {
                proof {
                    assert(!(digit(i as int, qa) == 1 && digit(i as int, qb) == 1));
                    assert(cz_seq(orig, qa, qb)[i as int] == orig[i as int]);
                }
            }
            proof {
                assert forall|m: int| 0 <= m < dim implies #[trigger] self@[m] == (if m < i + 1 {
                    cz_seq(orig, qa, qb)[m]
                } else {
                    orig[m]
                }) by {
                    if m != i {
                        assert(self@[m] == pre[m]);
                    }
                }
            }
            i = i + 1;
        }
        proof {
            assert(self@ =~= cz_seq(orig, qa, qb));
            lemma_cz_sum(orig, qa, qb);
        }
    }
}

/// In a well-formed state, every entry's integer norm part is at most the
/// total `2^k`, so with `k <= 80` every coordinate fits in `[-2^40, 2^40]`.
pub proof fn lemma_state_coords(s: Seq<AmpM>, k: nat, m: int)
    requires
        sum_p(s) == pow2(k),
        k <= 80,
        0 <= m < s.len(),
    ensures
        coords_le(s[m], 0x100_0000_0000),
        0 <= p_norm(s[m]) <= pow2(k),
        -p_norm(s[m]) <= q_norm(s[m]) <= p_norm(s[m]),
{
    lemma_elem_le_sum(s, m);
    lemma_norm_nonneg(s[m]);
    if k < 80 {
        lemma_pow2_strictly_increases(k, 80);
    }
    lemma_pow2_adds(40, 40);
    lemma2_to64_rest();
    lemma_coord_bound(s[m], 0x100_0000_0000);
}

} // verus!

