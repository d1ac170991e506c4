//! Tests of the state-vector simulator's gate operations.

use quantum_rcs::{Amp, Prob, QuantumSimulator};

/// The complex value of an amplitude under scale exponent `k`, as
/// floating-point real and imaginary parts: the coordinates combine over the
/// basis `(1, w, i, w^3)` with `w = (1 + i)/sqrt(2)`.
fn amp_complex(a: &Amp, k: u32) -> (f64, f64) {
    let s = 2f64.sqrt();
    let scale = s.powi(k as i32);
    let re = a.x0 as f64 + (a.x1 as f64 - a.x3 as f64) / s;
    let im = a.x2 as f64 + (a.x1 as f64 + a.x3 as f64) / s;
    (re / scale, im / scale)
}

/// The probability value `(p + q*sqrt(2)) / 2^k` as floating point.
fn prob_f64(p: &Prob) -> f64 {
    (p.num_int as f64 + p.num_sqrt2 as f64 * 2f64.sqrt()) / 2f64.powi(p.scale_exp as i32)
}

#[test]
fn test_hadamard_superposition() {
    let mut sim = QuantumSimulator::with_seed(1, 42);
    sim.hadamard(0);
    let probs = sim.probabilities();
    assert!((prob_f64(&probs[0]) - 0.5).abs() < 1e-10);
    assert!((prob_f64(&probs[1]) - 0.5).abs() < 1e-10);
}

#[test]
fn test_cz_phase() {
    let mut sim = QuantumSimulator::with_seed(2, 42);
    // Create |11> state
    sim.set_basis_state(3);

    sim.cz(0, 1);

    // Should have -1 phase on |11>
    let (re, _im) = amp_complex(&sim.amplitude(3), sim.scale_exponent());
    assert!((re + 1.0).abs() < 1e-10);
}

#[test]
fn test_probability_normalization() {
    let mut sim = QuantumSimulator::with_seed(4, 42);
    for q in 0..4 {
        sim.hadamard(q);
        sim.random_single_gate(q);
    }
    sim.cz(0, 1);
    sim.cz(2, 3);

    let probs = sim.probabilities();
    let sum: f64 = probs.iter().map(prob_f64).sum();
    assert!((sum - 1.0).abs() < 1e-10);
}

#[test]
fn probability_normalization_is_exact() {
    // Unitarity holds exactly in the integer representation: the integer
    // parts sum to 2^k and the sqrt(2) parts cancel, for any gate sequence.
    let mut sim = QuantumSimulator::with_seed(5, 9);
    for q in 0..5 {
        sim.hadamard(q);
    }
    for q in 0..5 {
        sim.random_single_gate(q);
    }
    sim.cz(0, 3);
    sim.cz(1, 4);
    sim.cz(2, 3);
    let probs = sim.probabilities();
    let k = sim.scale_exponent();
    let p_total: i128 = probs.iter().map(|p| p.num_int).sum();
    let q_total: i128 = probs.iter().map(|p| p.num_sqrt2).sum();
    assert_eq!(p_total, 1i128 << k);
    assert_eq!(q_total, 0);
}

#[test]
fn hadamard_twice_restores_basis_state() {
    // H * H is the identity, up to the tracked scale: after two Hadamard
    // applications the first basis state again holds all probability.
    let mut sim = QuantumSimulator::with_seed(1, 0);
    sim.hadamard(0);
    sim.hadamard(0);
    let probs = sim.probabilities();
    assert!((prob_f64(&probs[0]) - 1.0).abs() < 1e-12);
    assert!(prob_f64(&probs[1]).abs() < 1e-12);
}

#[test]
fn determinism_under_fixed_seed() {
    // Two simulators with the same seed, qubit count and gate schedule end
    // in bit-identical exact states.
    let mut a = QuantumSimulator::with_seed(4, 7);
    let mut b = QuantumSimulator::with_seed(4, 7);
    for q in 0..4 {
        a.hadamard(q);
        b.hadamard(q);
    }
    for _layer in 0..3 {
        for q in 0..4 {
            a.random_single_gate(q);
            b.random_single_gate(q);
        }
        a.cz(0, 1);
        b.cz(0, 1);
        a.cz(2, 3);
        b.cz(2, 3);
    }
    assert_eq!(a.scale_exponent(), b.scale_exponent());
    for i in 0..16 {
        assert_eq!(a.amplitude(i), b.amplitude(i));
    }
}

#[test]
fn reset_restores_initial_state() {
    let mut sim = QuantumSimulator::with_seed(3, 1);
    for q in 0..3 {
        sim.hadamard(q);
        sim.random_single_gate(q);
    }
    sim.reset();
    assert_eq!(sim.scale_exponent(), 0);
    let probs = sim.probabilities();
    assert_eq!(probs[0].num_int, 1);
    for m in 1..8 {
        assert_eq!(probs[m].num_int, 0);
        assert_eq!(probs[m].num_sqrt2, 0);
    }
}

#[test]
fn measure_returns_indices_in_range() {
    let mut sim = QuantumSimulator::with_seed(3, 11);
    for q in 0..3 {
        sim.hadamard(q);
    }
    for _ in 0..100 {
        let outcome = sim.measure();
        assert!(outcome < 8);
    }
}

#[test]
fn measure_follows_the_distribution_support() {
    // In a basis state, every draw returns that basis index: the weight
    // vector is zero everywhere else.
    let mut sim = QuantumSimulator::with_seed(2, 5);
    sim.set_basis_state(2);
    for _ in 0..50 {
        assert_eq!(sim.measure(), 2);
    }
}
