//! How each gate of the library transforms a state vector, stated over
//! mathematical sequences.
//!
//! One note on the square root of W, with `W = (X + Y)/sqrt(2)`: the
//! informal rendering `cos(pi/4)*I + sin(pi/4)*sigma_y`, with entries
//! `[[cos, -i*sin], [i*sin, cos]]`, has determinant zero and is not unitary,
//! so it cannot be a square root of the unitary W; this library applies the
//! standard unitary square root `(1/sqrt(2)) * [[1, -sqrt(i)], [sqrt(-i), 1]]`
//! instead, as norm preservation demands.
//!
//! A single-qubit gate acts on the pair of entries whose indices differ in
//! the binary digit at place `2^q`; the controlled-phase gate negates the
//! entries whose digits at both of its places are one. Every single-qubit
//! gate in the library carries an implicit factor `1/sqrt(2)`, accounted for
//! by the state's global scale exponent, so the sum of squared magnitudes of
//! the raw coordinates exactly doubles with each application: that is the
//! unitarity invariant.

use vstd::prelude::*;
use vstd::arithmetic::power2::{pow2, lemma_pow2_adds, lemma_pow2_pos};
use vstd::arithmetic::div_mod::lemma_fundamental_div_mod;
use crate::amp::{AmpM, m_add, m_sub, m_neg, m_rot, m_rot2, m_rot_inv, p_norm, q_norm,
    lemma_butterfly_norm, lemma_skew_butterfly_norm, lemma_twist_butterfly_norm, lemma_rot_norm,
    lemma_norm_nonneg};
use crate::util::{lemma_partner_in_range, lemma_upper_half_digit};

verus! {

/// The single-qubit gates of the library. `Hadamard` establishes the uniform
/// superposition; the three square roots are the random-evolution gates.
#[derive(Clone, Copy, PartialEq, Eq, Structural, Debug)]
pub enum Gate {
    Hadamard,
    SqrtX,
    SqrtY,
    SqrtW,
}

/// The binary digit of index `m` at place `2^q`.
pub open spec fn digit(m: int, q: nat) -> int {
    (m / pow2(q) as int) % 2
}

/// The new entry at the lower index of a pair, before the common `1/sqrt(2)`:
///   Hadamard: `a + b`
///   sqrt(X):  `w*(a - i*b)`
///   sqrt(Y):  `w*(a - b)`
///   sqrt(W):  `a - w*b`
pub open spec fn gate_lo(g: Gate, a: AmpM, b: AmpM) -> AmpM {
    match g {
        Gate::Hadamard => m_add(a, b),
        Gate::SqrtX => m_rot(m_sub(a, m_rot2(b))),
        Gate::SqrtY => m_rot(m_sub(a, b)),
        Gate::SqrtW => m_sub(a, m_rot(b)),
    }
}

/// The new entry at the higher index of a pair, before the common `1/sqrt(2)`:
///   Hadamard: `a - b`
///   sqrt(X):  `w*(b - i*a)`
///   sqrt(Y):  `w*(a + b)`
///   sqrt(W):  `w^-1*a + b`
pub open spec fn gate_hi(g: Gate, a: AmpM, b: AmpM) -> AmpM {
    match g {
        Gate::Hadamard => m_sub(a, b),
        Gate::SqrtX => m_rot(m_sub(b, m_rot2(a))),
        Gate::SqrtY => m_rot(m_add(a, b)),
        Gate::SqrtW => m_add(m_rot_inv(a), b),
    }
}

/// The whole state vector after a single-qubit gate on qubit `q`, before the
/// common `1/sqrt(2)`.
pub open spec fn gate_seq(s: Seq<AmpM>, q: nat, g: Gate) -> Seq<AmpM> {
    Seq::new(
        s.len(),
        |m: int|
            if digit(m, q) == 0 {
                gate_lo(g, s[m], s[m + pow2(q)])
            } else {
                gate_hi(g, s[m - pow2(q)], s[m])
            },
    )
}

/// The whole state vector after a controlled-phase gate on qubits `qa`, `qb`.
pub open spec fn cz_seq(s: Seq<AmpM>, qa: nat, qb: nat) -> Seq<AmpM> {
    Seq::new(
        s.len(),
        |m: int|
            if digit(m, qa) == 1 && digit(m, qb) == 1 {
                m_neg(s[m])
            } else {
                s[m]
            },
    )
}

/// The basis state vector: entry one at `idx`, zero elsewhere.
pub open spec fn basis_seq(len: nat, idx: int) -> Seq<AmpM> {
    Seq::new(
        len,
        |m: int|
            if m == idx {
                AmpM { x0: 1, x1: 0, x2: 0, x3: 0 }
            } else {
                AmpM { x0: 0, x1: 0, x2: 0, x3: 0 }
            },
    )
}

/// The vector whose first `cnt` entries are one and the rest zero: the state
/// reached by the initial Hadamard layer after its first `log2(cnt)` gates.
pub open spec fn ones_seq(len: nat, cnt: int) -> Seq<AmpM> {
    Seq::new(
        len,
        |m: int|
            if m < cnt {
                AmpM { x0: 1, x1: 0, x2: 0, x3: 0 }
            } else {
                AmpM { x0: 0, x1: 0, x2: 0, x3: 0 }
            },
    )
}

/// One step of the initial Hadamard layer, applied in qubit order to the
/// first basis state: Hadamard on qubit `j` takes the vector with ones below
/// `2^j` to the vector with ones below `2^(j+1)`. After the whole layer the
/// state is all ones: the exactly uniform superposition.
pub proof fn lemma_hadamard_layer_step(n: nat, j: nat)
    requires
        j < n,
    ensures
        gate_seq(ones_seq(pow2(n), pow2(j) as int), j, Gate::Hadamard) =~= ones_seq(
            pow2(n),
            pow2((j + 1) as nat) as int,
        ),
{
    let p = pow2(j) as int;
    let s = ones_seq(pow2(n), p);
    let t = gate_seq(s, j, Gate::Hadamard);
    lemma_pow2_pos(j);
    lemma_pow2_pos(n);
    lemma_pow2_adds(j, 1);
    assert(pow2(1) == 2) by {
        vstd::arithmetic::power2::lemma2_to64();
    }
    let one = AmpM { x0: 1, x1: 0, x2: 0, x3: 0 };
    let zero = AmpM { x0: 0, x1: 0, x2: 0, x3: 0 };
    assert forall|m: int| 0 <= m < pow2(n) implies t[m] == ones_seq(pow2(n), 2 * p)[m] by {
        if digit(m, j) == 0 {
            lemma_partner_in_range(m, j, n);
            assert(t[m] == m_add(s[m], s[m + p]));
            if m < p {
                assert(s[m] == one && s[m + p] == zero);
                assert(m_add(one, zero) == one);
            } else {
                // An index with digit zero at place 2^j that is at least 2^j
                // is at least 2^(j+1).
                lemma_fundamental_div_mod(m, p);
                let d = m / p;
                let r = m % p;
                assert(d >= 1) by (nonlinear_arith)
                    requires
                        m == p * d + r,
                        0 <= r < p,
                        m >= p,
                        p > 0,
                ;
                assert(d != 1);
                assert(m >= 2 * p) by (nonlinear_arith)
                    requires
                        m == p * d + r,
                        r >= 0,
                        d >= 2,
                        p > 0,
                ;
                assert(s[m] == zero && s[m + p] == zero);
                assert(m_add(zero, zero) == zero);
            }
        } else {
            lemma_digit_one_ge(m, j);
            assert(t[m] == m_sub(s[m - p], s[m]));
            if m < 2 * p {
                assert(s[m - p] == one && s[m] == zero);
                assert(m_sub(one, zero) == one);
            } else {
                assert(s[m - p] == zero && s[m] == zero);
                assert(m_sub(zero, zero) == zero);
            }
        }
    }
    assert(t =~= ones_seq(pow2(n), 2 * p));
}

/// The sum of the integer parts of the squared magnitudes of all entries.
pub open spec fn sum_p(s: Seq<AmpM>) -> int
    decreases s.len(),
{
    if s.len() == 0 {
        0
    } else {
        sum_p(s.drop_last()) + p_norm(s.last())
    }
}

/// The sum of the `sqrt(2)` parts of the squared magnitudes of all entries.
pub open spec fn sum_q(s: Seq<AmpM>) -> int
    decreases s.len(),
{
    if s.len() == 0 {
        0
    } else {
        sum_q(s.drop_last()) + q_norm(s.last())
    }
}

/// Both sums distribute over concatenation.
pub proof fn lemma_sum_concat(s1: Seq<AmpM>, s2: Seq<AmpM>)
    ensures
        sum_p(s1 + s2) == sum_p(s1) + sum_p(s2),
        sum_q(s1 + s2) == sum_q(s1) + sum_q(s2),
    decreases s2.len(),
{
    if s2.len() == 0 {
        assert(s1 + s2 =~= s1);
    } else {
        let s2d = s2.drop_last();
        assert((s1 + s2).drop_last() =~= s1 + s2d);
        assert((s1 + s2).last() == s2.last());
        lemma_sum_concat(s1, s2d);
    }
}

/// Two vectors whose entries have equal norms have equal norm sums.
pub proof fn lemma_sum_pointwise_norm(s1: Seq<AmpM>, s2: Seq<AmpM>)
    requires
        s1.len() == s2.len(),
        forall|m: int|
            0 <= m < s1.len() ==> p_norm(#[trigger] s2[m]) == p_norm(s1[m]) && q_norm(s2[m])
                == q_norm(s1[m]),
    ensures
        sum_p(s2) == sum_p(s1),
        sum_q(s2) == sum_q(s1),
    decreases s1.len(),
{
    if s1.len() > 0 {
        lemma_sum_pointwise_norm(s1.drop_last(), s2.drop_last());
    }
}

/// Every entry's squared magnitude is nonnegative, so the total is, and each
/// entry's integer part is bounded by the total.
pub proof fn lemma_sum_p_nonneg(s: Seq<AmpM>)
    ensures
        sum_p(s) >= 0,
    decreases s.len(),
{
    if s.len() > 0 {
        lemma_sum_p_nonneg(s.drop_last());
        lemma_norm_nonneg(s.last());
    }
}

/// One entry's integer norm part never exceeds the whole sum.
pub proof fn lemma_elem_le_sum(s: Seq<AmpM>, m: int)
    requires
        0 <= m < s.len(),
    ensures
        p_norm(s[m]) <= sum_p(s),
    decreases s.len(),
{
    if m == s.len() - 1 {
        lemma_sum_p_nonneg(s.drop_last());
    } else {
        lemma_elem_le_sum(s.drop_last(), m);
        lemma_norm_nonneg(s.last());
    }
}

/// Each gate's pair update doubles the pair's squared magnitude.
pub proof fn lemma_gate_pair(g: Gate, a: AmpM, b: AmpM)
    ensures
        p_norm(gate_lo(g, a, b)) + p_norm(gate_hi(g, a, b)) == 2 * (p_norm(a) + p_norm(b)),
        q_norm(gate_lo(g, a, b)) + q_norm(gate_hi(g, a, b)) == 2 * (q_norm(a) + q_norm(b)),
{
    match g {
        Gate::Hadamard => {
            lemma_butterfly_norm(a, b);
        },
        Gate::SqrtX => {
            lemma_rot_norm(m_sub(a, m_rot2(b)));
            lemma_rot_norm(m_sub(b, m_rot2(a)));
            lemma_skew_butterfly_norm(a, b);
        },
        Gate::SqrtY => {
            lemma_rot_norm(m_sub(a, b));
            lemma_rot_norm(m_add(a, b));
            lemma_butterfly_norm(a, b);
        },
        Gate::SqrtW => {
            lemma_twist_butterfly_norm(a, b);
        },
    }
}

/// An index whose digit at place `2^q` is one is at least `2^q`.
pub proof fn lemma_digit_one_ge(m: int, q: nat)
    requires
        m >= 0,
        digit(m, q) == 1,
    ensures
        m >= pow2(q),
{
    let p = pow2(q) as int;
    lemma_pow2_pos(q);
    lemma_fundamental_div_mod(m, p);
    let d = m / p;
    let r = m % p;
    assert(d >= 1) by {
        if d <= 0 {
            assert(d % 2 != 1) by (nonlinear_arith)
                requires
                    d <= 0,
                    m >= 0,
                    0 <= r < p,
                    m == p * d + r,
            ;
        }
    }
    assert(m >= p) by (nonlinear_arith)
        requires
            m == p * d + r,
            d >= 1,
            r >= 0,
            p > 0,
    ;
}

/// Zipping a gate across two equal halves doubles both norm sums.
proof fn lemma_cross_zip(lo: Seq<AmpM>, hi: Seq<AmpM>, g: Gate)
    requires
        lo.len() == hi.len(),
    ensures
        sum_p(Seq::new(lo.len(), |m: int| gate_lo(g, lo[m], hi[m]))) + sum_p(
            Seq::new(lo.len(), |m: int| gate_hi(g, lo[m], hi[m])),
        ) == 2 * (sum_p(lo) + sum_p(hi)),
        sum_q(Seq::new(lo.len(), |m: int| gate_lo(g, lo[m], hi[m]))) + sum_q(
            Seq::new(lo.len(), |m: int| gate_hi(g, lo[m], hi[m])),
        ) == 2 * (sum_q(lo) + sum_q(hi)),
    decreases lo.len(),
{
    let zl = Seq::new(lo.len(), |m: int| gate_lo(g, lo[m], hi[m]));
    let zh = Seq::new(lo.len(), |m: int| gate_hi(g, lo[m], hi[m]));
    if lo.len() == 0 {
    } else {
        let lod = lo.drop_last();
        let hid = hi.drop_last();
        let zld = Seq::new(lod.len(), |m: int| gate_lo(g, lod[m], hid[m]));
        let zhd = Seq::new(lod.len(), |m: int| gate_hi(g, lod[m], hid[m]));
        assert(zl.drop_last() =~= zld);
        assert(zh.drop_last() =~= zhd);
        lemma_cross_zip(lod, hid, g);
        lemma_gate_pair(g, lo.last(), hi.last());
    }
}

/// The central unitarity lemma: a single-qubit gate on any qubit of a state
/// of length `2^n` doubles both norm sums (the doubling is then cancelled by
/// the state's scale exponent growing by one).
pub proof fn lemma_gate_sum(s: Seq<AmpM>, q: nat, n: nat, g: Gate)
    requires
        s.len() == pow2(n),
        q < n,
    ensures
        sum_p(gate_seq(s, q, g)) == 2 * sum_p(s),
        sum_q(gate_seq(s, q, g)) == 2 * sum_q(s),
    decreases n,
{
    let t = gate_seq(s, q, g);
    let half = pow2((n - 1) as nat) as int;
    let p = pow2(q) as int;
    lemma_pow2_pos(q);
    lemma_pow2_pos((n - 1) as nat);
    lemma_pow2_adds((n - 1) as nat, 1);
    assert(pow2(1) == 2) by {
        vstd::arithmetic::power2::lemma2_to64();
    }
    assert(s.len() == 2 * half);
    let lo = s.subrange(0, half);
    let hi = s.subrange(half, 2 * half);
    assert(s =~= lo + hi);
    lemma_sum_concat(lo, hi);
    if q == n - 1 {
        let zl = Seq::new(lo.len(), |m: int| gate_lo(g, lo[m], hi[m]));
        let zh = Seq::new(lo.len(), |m: int| gate_hi(g, lo[m], hi[m]));
        assert forall|m: int| 0 <= m < 2 * half implies t[m] == (zl + zh)[m] by {
            if m < half {
                lemma_upper_half_digit(m, q, n);
            } else {
                lemma_upper_half_digit(m - half, q, n);
            }
        }
        assert(t =~= zl + zh);
        lemma_cross_zip(lo, hi, g);
        lemma_sum_concat(zl, zh);
    } else {
        let tl = gate_seq(lo, q, g);
        let th = gate_seq(hi, q, g);
        assert forall|m: int| 0 <= m < 2 * half implies t[m] == (tl + th)[m] by {
            if m < half {
                if digit(m, q) == 0 {
                    lemma_partner_in_range(m, q, (n - 1) as nat);
                } else {
                    lemma_digit_one_ge(m, q);
                }
            } else {
                let mm = m - half;
                lemma_upper_half_digit(mm, q, n);
                if digit(mm, q) == 0 {
                    lemma_partner_in_range(mm, q, (n - 1) as nat);
                    lemma_upper_half_digit(mm + p, q, n);
                } else {
                    lemma_digit_one_ge(mm, q);
                    lemma_upper_half_digit(mm - p, q, n);
                }
            }
        }
        assert(t =~= tl + th);
        lemma_gate_sum(lo, q, (n - 1) as nat, g);
        lemma_gate_sum(hi, q, (n - 1) as nat, g);
        lemma_sum_concat(tl, th);
    }
}

/// The controlled-phase gate only negates entries, so it preserves both norm
/// sums exactly.
pub proof fn lemma_cz_sum(s: Seq<AmpM>, qa: nat, qb: nat)
    ensures
        sum_p(cz_seq(s, qa, qb)) == sum_p(s),
        sum_q(cz_seq(s, qa, qb)) == sum_q(s),
{
    let t = cz_seq(s, qa, qb);
    assert forall|m: int| 0 <= m < s.len() implies p_norm(#[trigger] t[m]) == p_norm(s[m])
        && q_norm(t[m]) == q_norm(s[m]) by {
        lemma_rot_norm(s[m]);
    }
    lemma_sum_pointwise_norm(s, t);
}

/// Applying Hadamard to the qubit of a freshly created one-qubit state
/// (basis entry one at index zero, scale zero) gives both entries squared
/// magnitude `1 + 0*sqrt(2)`; with the scale exponent raised to one, both
/// probabilities are exactly `1/2`.
pub proof fn lemma_hadamard_fresh_uniform()
    ensures
        ({
            let after = gate_seq(basis_seq(2, 0), 0, Gate::Hadamard);
            &&& after.len() == 2
            &&& p_norm(after[0]) == 1 && q_norm(after[0]) == 0
            &&& p_norm(after[1]) == 1 && q_norm(after[1]) == 0
        }),
{
    lemma_pow2_pos(0);
    let s0 = basis_seq(2, 0);
    let after = gate_seq(s0, 0, Gate::Hadamard);
    assert(pow2(0) == 1) by {
        vstd::arithmetic::power2::lemma2_to64();
    }
    assert(digit(0, 0) == 0 && digit(1, 0) == 1);
    assert(after[0] == m_add(s0[0], s0[1]));
    assert(after[1] == m_sub(s0[0], s0[1]));
    assert(after[0] == (AmpM { x0: 1, x1: 0, x2: 0, x3: 0 }));
    assert(after[1] == (AmpM { x0: 1, x1: 0, x2: 0, x3: 0 }));
}

/// Applying the controlled-phase gate to both qubits of the two-qubit basis
/// state at index three (both digits one) negates exactly that entry: its
/// amplitude becomes exactly `-1`, and every other entry is unchanged.
pub proof fn lemma_cz_negates_top_basis_state()
    ensures
        ({
            let before = basis_seq(4, 3);
            let after = cz_seq(before, 0, 1);
            &&& after.len() == 4
            &&& after[3] == (AmpM { x0: -1, x1: 0, x2: 0, x3: 0 })
            &&& forall|m: int| 0 <= m < 3 ==> after[m] == before[m]
        }),
{
    let before = basis_seq(4, 3);
    let after = cz_seq(before, 0, 1);
    assert(pow2(0) == 1 && pow2(1) == 2) by {
        vstd::arithmetic::power2::lemma2_to64();
    }
    assert(digit(3, 0) == 1 && digit(3, 1) == 1);
    assert(after[3] == m_neg(before[3]));
    assert(after[3] == (AmpM { x0: -1, x1: 0, x2: 0, x3: 0 }));
    assert forall|m: int| 0 <= m < 3 implies after[m] == before[m] by {
        assert(digit(0, 0) == 0 && digit(1, 1) == 0 && digit(2, 0) == 0);
    }
}

/// A basis state is a unit vector: its norm sums are one and zero.
pub proof fn lemma_sum_basis(len: nat, idx: int)
    requires
        0 <= idx < len,
    ensures
        sum_p(basis_seq(len, idx)) == 1,
        sum_q(basis_seq(len, idx)) == 0,
    decreases len,
{
    let s = basis_seq(len, idx);
    if len > 0 {
        if idx == len - 1 {
            let zeros = basis_seq((len - 1) as nat, -1);
            assert(s.drop_last() =~= zeros);
            lemma_sum_zeros((len - 1) as nat);
            assert(s.last() == (AmpM { x0: 1, x1: 0, x2: 0, x3: 0 }));
            assert(p_norm(s.last()) == 1 && q_norm(s.last()) == 0) by (nonlinear_arith)
                requires
                    s.last() == (AmpM { x0: 1, x1: 0, x2: 0, x3: 0 }),
            ;
        } else {
            assert(s.drop_last() =~= basis_seq((len - 1) as nat, idx));
            lemma_sum_basis((len - 1) as nat, idx);
            assert(s.last() == (AmpM { x0: 0, x1: 0, x2: 0, x3: 0 }));
            assert(p_norm(s.last()) == 0 && q_norm(s.last()) == 0) by (nonlinear_arith)
                requires
                    s.last() == (AmpM { x0: 0, x1: 0, x2: 0, x3: 0 }),
            ;
        }
    }
}

/// The all-zero vector has zero norm sums.
proof fn lemma_sum_zeros(len: nat)
    ensures
        sum_p(basis_seq(len, -1)) == 0,
        sum_q(basis_seq(len, -1)) == 0,
    decreases len,
{
    let s = basis_seq(len, -1);
    if len > 0 {
        assert(s.drop_last() =~= basis_seq((len - 1) as nat, -1));
        lemma_sum_zeros((len - 1) as nat);
        assert(s.last() == (AmpM { x0: 0, x1: 0, x2: 0, x3: 0 }));
        assert(p_norm(s.last()) == 0 && q_norm(s.last()) == 0) by (nonlinear_arith)
            requires
                s.last() == (AmpM { x0: 0, x1: 0, x2: 0, x3: 0 }),
        ;
    }
}

} // verus!
