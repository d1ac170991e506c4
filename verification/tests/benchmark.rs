//! Tests of the sampler, the XEB scorer and the benchmark pipeline.

use quantum_rcs::{
    generate_cz_pairs, run_benchmark, run_rcs_with_samples, sample_from_weights, xeb_score, Prob,
    XebValue,
};
use rand::SeedableRng;

/// The score value `(num_int + num_sqrt2*sqrt(2)) / den` as floating point.
fn xeb_f64(x: &XebValue) -> f64 {
    (x.num_int as f64 + x.num_sqrt2 as f64 * 2f64.sqrt()) / x.den as f64
}

#[test]
fn test_xeb_score_reasonable() {
    // Run multiple times to account for randomness
    let mut valid_count = 0;
    for _ in 0..10 {
        let xeb = xeb_f64(&run_rcs_with_samples(3, 4, 512));
        if xeb > -0.5 && xeb <= 1.0 {
            valid_count += 1;
        }
    }
    // At least 7 out of 10 should be in reasonable range
    assert!(valid_count >= 7, "Too many XEB scores out of range: {}/10 valid", valid_count);
}

#[test]
fn test_xeb_above_threshold() {
    // XEB scores are highly variable for random circuits
    // Just verify we get reasonable values (not NaN, not extreme)
    let mut valid_count = 0;
    for _ in 0..10 {
        let xeb = xeb_f64(&run_rcs_with_samples(5, 6, 1024));
        if xeb.is_finite() && xeb >= -1.0 && xeb <= 1.0 {
            valid_count += 1;
        }
    }
    assert!(valid_count >= 8, "Too many invalid XEB scores: {}/10 valid", valid_count);
}

#[test]
fn test_benchmark_result_structure() {
    let result = run_benchmark(3, 4, 256);
    assert_eq!(result.depth, 3);
    assert_eq!(result.qubits, 4);
    assert_eq!(result.samples, 256);
    assert!(result.runtime_ms < 10000);
}

#[test]
fn benchmark_score_is_clamped_and_finite() {
    let result = run_benchmark(3, 4, 256);
    let score = xeb_f64(&result.xeb_score);
    assert!(score.is_finite());
    assert!(score >= -0.5 - 1e-12);
    assert!(score <= 1.0 + 1e-12);
    assert!(!result.date.is_empty());
}

#[test]
fn xeb_of_uniform_distribution_is_zero() {
    // Every sampled outcome has ideal probability exactly 1/2^n, so the
    // score is exactly 2^n * (1/2^n) - 1 == 0, whatever was sampled.
    let probs: Vec<Prob> = (0..4).map(|_| Prob { num_int: 1, num_sqrt2: 0, scale_exp: 2 }).collect();
    let samples: Vec<usize> = vec![0, 3, 1, 1, 2, 0, 3, 2, 2, 1];
    let score = xeb_score(&probs, &samples, 2);
    assert_eq!(score.num_int, 0);
    assert_eq!(score.num_sqrt2, 0);
    assert!(score.den > 0);
}

#[test]
fn xeb_of_concentrated_distribution_hits_one() {
    // All probability on one outcome, and only that outcome sampled:
    // meanP == 1, so the raw score 2^n - 1 == 3 clamps to exactly 1.
    let mut probs = vec![Prob { num_int: 0, num_sqrt2: 0, scale_exp: 2 }; 4];
    probs[0] = Prob { num_int: 4, num_sqrt2: 0, scale_exp: 2 };
    let samples: Vec<usize> = vec![0, 0, 0];
    let score = xeb_score(&probs, &samples, 2);
    assert_eq!(xeb_f64(&score), 1.0);
}

#[test]
fn xeb_clamps_below_at_minus_half() {
    // All probability on outcome 0, but only zero-probability outcomes
    // sampled: meanP == 0, so the raw score -1 clamps to exactly -1/2.
    let mut probs = vec![Prob { num_int: 0, num_sqrt2: 0, scale_exp: 2 }; 4];
    probs[0] = Prob { num_int: 4, num_sqrt2: 0, scale_exp: 2 };
    let samples: Vec<usize> = vec![1, 2];
    let score = xeb_score(&probs, &samples, 2);
    assert_eq!(xeb_f64(&score), -0.5);
}

#[test]
fn xeb_keeps_exact_irrational_parts() {
    // One qubit with probabilities (2 - sqrt(2))/4 and (2 + sqrt(2))/4.
    // Sampling the second outcome gives meanP = (2 + sqrt(2))/4, so the
    // score is 2 * meanP - 1 == sqrt(2)/2, kept exactly as (0 + 2*sqrt(2))/4.
    let probs = vec![
        Prob { num_int: 2, num_sqrt2: -1, scale_exp: 2 },
        Prob { num_int: 2, num_sqrt2: 1, scale_exp: 2 },
    ];
    let high = xeb_score(&probs, &vec![1], 1);
    assert_eq!((high.num_int, high.num_sqrt2, high.den), (0, 2, 4));
    assert!((xeb_f64(&high) - 2f64.sqrt() / 2.0).abs() < 1e-12);
    // Sampling the first outcome gives the score -sqrt(2)/2, below the
    // clamp: the result is exactly -1/2.
    let low = xeb_score(&probs, &vec![0], 1);
    assert_eq!(xeb_f64(&low), -0.5);
}

#[test]
fn xeb_self_sampling_tends_high() {
    // The sampler draws from the ideal distribution itself, so the score
    // concentrates near `2^n * sum(p^2) - 1`, which is close to one for
    // scrambled circuits of this depth; allow for sampling noise and the
    // occasional under-scrambled circuit.
    let mut high = 0;
    for _ in 0..10 {
        let x = xeb_f64(&run_rcs_with_samples(5, 6, 2048));
        if (0.3..=1.0).contains(&x) {
            high += 1;
        }
    }
    assert!(high >= 6, "self-consistent sampling scored low too often: {}/10", high);
}

#[test]
fn shallow_uniform_run_scores_near_zero() {
    // Depth zero: only the Hadamard layer, so the ideal distribution over
    // two qubits is exactly uniform (0.25 each) and the score is exactly
    // zero regardless of the 1000 sampled outcomes; the denominator is the
    // batch size times the scale 2^2.
    let score = run_rcs_with_samples(0, 2, 1000);
    assert_eq!(score.num_int, 0);
    assert_eq!(score.num_sqrt2, 0);
    assert_eq!(score.den, 4000);
    let x = xeb_f64(&score);
    assert!(x.abs() < 1e-9);
}

#[test]
fn benchmark_date_has_dashed_layout() {
    // The record's date is always ten characters, YYYY-MM-DD.
    let r = run_benchmark(1, 2, 16);
    let d = r.date.as_bytes();
    assert_eq!(d.len(), 10);
    for (i, b) in d.iter().enumerate() {
        if i == 4 || i == 7 {
            assert_eq!(*b, b'-');
        } else {
            assert!(b.is_ascii_digit());
        }
    }
}

#[test]
fn format_date_renders_and_clamps() {
    assert_eq!(quantum_rcs::date::format_date(2025, 1, 15), "2025-01-15");
    assert_eq!(quantum_rcs::date::format_date(987, 12, 3), "0987-12-03");
    assert_eq!(quantum_rcs::date::format_date(-5, 6, 7), "0000-06-07");
    assert_eq!(quantum_rcs::date::format_date(123456, 10, 31), "9999-10-31");
}

#[test]
fn sample_walk_picks_first_crossing() {
    // The cumulative walk returns the first index whose cumulative weight
    // exceeds the draw, with the last index as fallback.
    let w: Vec<u64> = vec![0, 5, 0, 0];
    assert_eq!(sample_from_weights(&w, 3), 1);
    assert_eq!(sample_from_weights(&w, 4), 1);
    // Draw 5 is never exceeded: fallback to the last index.
    assert_eq!(sample_from_weights(&w, 5), 3);
    let v: Vec<u64> = vec![2, 3, 4];
    assert_eq!(sample_from_weights(&v, 0), 0);
    assert_eq!(sample_from_weights(&v, 1), 0);
    assert_eq!(sample_from_weights(&v, 2), 1);
    assert_eq!(sample_from_weights(&v, 4), 1);
    assert_eq!(sample_from_weights(&v, 5), 2);
    assert_eq!(sample_from_weights(&v, 8), 2);
    assert_eq!(sample_from_weights(&v, 9), 2);
}

#[test]
fn cz_pairs_follow_the_brickwork_pattern() {
    let mut rng = rand_chacha::ChaCha8Rng::seed_from_u64(13);
    // Four qubits: no long-range pair is ever added.
    let even = generate_cz_pairs(4, &mut rng, 0);
    assert_eq!(even, vec![(0, 1), (2, 3)]);
    let odd = generate_cz_pairs(4, &mut rng, 1);
    assert_eq!(odd, vec![(1, 2)]);
    // More than four qubits: sometimes one extra pair across the halves.
    for layer in 0..20 {
        let pairs = generate_cz_pairs(6, &mut rng, layer);
        let off = layer % 2;
        let base: Vec<(usize, usize)> =
            (off..5).step_by(2).map(|i| (i, i + 1)).collect();
        assert_eq!(&pairs[..base.len()], &base[..]);
        assert!(pairs.len() <= base.len() + 1);
        if pairs.len() == base.len() + 1 {
            let (a, b) = pairs[base.len()];
            assert!(a < 3 && (3..6).contains(&b));
        }
    }
}
