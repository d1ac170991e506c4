//! Classical simulator for quantum random circuit sampling (RCS).
//!
//! The simulator evolves an exact state vector over N qubits through a
//! pseudo-random circuit of unitary gates, derives the ideal output
//! distribution, draws measurement samples from it, and scores sampling
//! fidelity with the linear cross-entropy benchmark (XEB).
//!
//! All gates in the library (Hadamard, the square roots of X, Y and W, and
//! the controlled-phase gate) have entries in the ring of integer
//! combinations of the eighth roots of unity scaled by powers of 1/sqrt(2).
//! Amplitudes are therefore kept exactly, as four integer coordinates over
//! the basis (1, w, w^2, w^3) with w = e^(i*pi/4), together with one global
//! scale exponent; unitarity is a proved invariant, not a floating-point
//! approximation.

pub mod amp;
pub mod bench;
pub mod date;
pub mod gates;
pub mod rng_ext;
pub mod sampler;
pub mod sim;
pub mod util;
pub mod xeb;

pub use amp::Amp;
pub use bench::{RcsResult, generate_cz_pairs, run_benchmark, run_rcs, run_rcs_with_samples};
pub use sampler::{Prob, sample_from_weights};
pub use sim::QuantumSimulator;
pub use xeb::{XebValue, xeb_score};

