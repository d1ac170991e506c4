//! Exact amplitudes.
//!
//! Every gate in the library has entries in the ring `Z[w]` of integer
//! combinations of the eighth root of unity `w = e^(i*pi/4)`, divided by a
//! power of `sqrt(2)`. An amplitude is therefore kept as the four integer
//! coordinates of `x0 + x1*w + x2*w^2 + x3*w^3` (note `w^2 = i`); the state
//! carries one global exponent `k`, and the complex value of an entry is the
//! coordinate combination divided by `sqrt(2)^k`.
//!
//! The squared magnitude of `x0 + x1*w + x2*w^2 + x3*w^3` is
//! `p_norm + q_norm * sqrt(2)`, an element of `Z[sqrt(2)]`, so probabilities
//! are exact integer pairs and unitarity is an integer equation.

use vstd::prelude::*;

verus! {

/// An exact state-vector entry: the complex number
/// `x0 + x1*w + x2*w^2 + x3*w^3` with `w = e^(i*pi/4)`,
/// before division by the state's global scale factor `sqrt(2)^k`.
#[derive(Clone, Copy, PartialEq, Eq, Structural, Debug)]
pub struct Amp {
    pub x0: i64,
    pub x1: i64,
    pub x2: i64,
    pub x3: i64,
}

/// The mathematical model of an amplitude: the same four coordinates as
/// unbounded integers.
pub ghost struct AmpM {
    pub x0: int,
    pub x1: int,
    pub x2: int,
    pub x3: int,
}

impl View for Amp {
    type V = AmpM;

    open spec fn view(&self) -> AmpM {
        AmpM { x0: self.x0 as int, x1: self.x1 as int, x2: self.x2 as int, x3: self.x3 as int }
    }
}

impl Amp {
    /// The zero amplitude.
    pub fn zero() -> (r: Amp)
        ensures
            r@ == (AmpM { x0: 0, x1: 0, x2: 0, x3: 0 }),
    {
        Amp { x0: 0, x1: 0, x2: 0, x3: 0 }
    }

    /// The amplitude one.
    pub fn one() -> (r: Amp)
        ensures
            r@ == (AmpM { x0: 1, x1: 0, x2: 0, x3: 0 }),
    {
        Amp { x0: 1, x1: 0, x2: 0, x3: 0 }
    }
}

/// All four coordinates lie in `[-bound, bound]`.
pub open spec fn coords_le(a: AmpM, bound: int) -> bool {
    &&& -bound <= a.x0 <= bound
    &&& -bound <= a.x1 <= bound
    &&& -bound <= a.x2 <= bound
    &&& -bound <= a.x3 <= bound
}

/// The integer part of the squared magnitude: with `w = e^(i*pi/4)`,
/// `|x0 + x1*w + x2*w^2 + x3*w^3|^2 == p_norm + q_norm * sqrt(2)`.
pub open spec fn p_norm(a: AmpM) -> int {
    a.x0 * a.x0 + a.x1 * a.x1 + a.x2 * a.x2 + a.x3 * a.x3
}

/// The `sqrt(2)` part of the squared magnitude.
pub open spec fn q_norm(a: AmpM) -> int {
    a.x0 * a.x1 - a.x0 * a.x3 + a.x1 * a.x2 + a.x2 * a.x3
}

/// Componentwise sum: the complex sum.
pub open spec fn m_add(a: AmpM, b: AmpM) -> AmpM {
    AmpM { x0: a.x0 + b.x0, x1: a.x1 + b.x1, x2: a.x2 + b.x2, x3: a.x3 + b.x3 }
}

/// Componentwise difference: the complex difference.
pub open spec fn m_sub(a: AmpM, b: AmpM) -> AmpM {
    AmpM { x0: a.x0 - b.x0, x1: a.x1 - b.x1, x2: a.x2 - b.x2, x3: a.x3 - b.x3 }
}

/// The complex negation.
pub open spec fn m_neg(a: AmpM) -> AmpM {
    AmpM { x0: -a.x0, x1: -a.x1, x2: -a.x2, x3: -a.x3 }
}

/// Multiplication by `w = e^(i*pi/4)`: rotates the coordinates one place,
/// using `w^4 == -1`.
pub open spec fn m_rot(a: AmpM) -> AmpM {
    AmpM { x0: -a.x3, x1: a.x0, x2: a.x1, x3: a.x2 }
}

/// Multiplication by `w^2 == i`.
pub open spec fn m_rot2(a: AmpM) -> AmpM {
    AmpM { x0: -a.x2, x1: -a.x3, x2: a.x0, x3: a.x1 }
}

/// Multiplication by `w^-1 = e^(-i*pi/4)`.
pub open spec fn m_rot_inv(a: AmpM) -> AmpM {
    AmpM { x0: a.x1, x1: a.x2, x2: a.x3, x3: -a.x0 }
}

impl Amp {
    /// The complex sum.
    pub(crate) fn add(self, b: Amp) -> (r: Amp)
        requires
            coords_le(self@, 0x2000_0000_0000_0000),
            coords_le(b@, 0x2000_0000_0000_0000),
        ensures
            r@ == m_add(self@, b@),
    {
        Amp { x0: self.x0 + b.x0, x1: self.x1 + b.x1, x2: self.x2 + b.x2, x3: self.x3 + b.x3 }
    }

    /// The complex difference.
    pub(crate) fn sub(self, b: Amp) -> (r: Amp)
        requires
            coords_le(self@, 0x2000_0000_0000_0000),
            coords_le(b@, 0x2000_0000_0000_0000),
        ensures
            r@ == m_sub(self@, b@),
    {
        Amp { x0: self.x0 - b.x0, x1: self.x1 - b.x1, x2: self.x2 - b.x2, x3: self.x3 - b.x3 }
    }

    /// The complex negation.
    pub(crate) fn neg(self) -> (r: Amp)
        requires
            coords_le(self@, 0x4000_0000_0000_0000),
        ensures
            r@ == m_neg(self@),
    {
        Amp { x0: -self.x0, x1: -self.x1, x2: -self.x2, x3: -self.x3 }
    }

    /// Multiplication by `w = e^(i*pi/4)`.
    pub(crate) fn rot(self) -> (r: Amp)
        requires
            coords_le(self@, 0x4000_0000_0000_0000),
        ensures
            r@ == m_rot(self@),
    {
        Amp { x0: -self.x3, x1: self.x0, x2: self.x1, x3: self.x2 }
    }

    /// Multiplication by `w^2 == i`.
    pub(crate) fn rot2(self) -> (r: Amp)
        requires
            coords_le(self@, 0x4000_0000_0000_0000),
        ensures
            r@ == m_rot2(self@),
    {
        Amp { x0: -self.x2, x1: -self.x3, x2: self.x0, x3: self.x1 }
    }

    /// Multiplication by `w^-1 = e^(-i*pi/4)`.
    pub(crate) fn rot_inv(self) -> (r: Amp)
        requires
            coords_le(self@, 0x4000_0000_0000_0000),
        ensures
            r@ == m_rot_inv(self@),
    {
        Amp { x0: self.x1, x1: self.x2, x2: self.x3, x3: -self.x0 }
    }
}

/// The cross term of `p_norm` as a bilinear form:
/// `p_norm(a + b) == p_norm(a) + p_norm(b) + p_cross(a, b)`.
pub open spec fn p_cross(a: AmpM, b: AmpM) -> int {
    2 * (a.x0 * b.x0 + a.x1 * b.x1 + a.x2 * b.x2 + a.x3 * b.x3)
}

/// The cross term of `q_norm` as a bilinear form.
pub open spec fn q_cross(a: AmpM, b: AmpM) -> int {
    (a.x0 * b.x1 + b.x0 * a.x1) - (a.x0 * b.x3 + b.x0 * a.x3) + (a.x1 * b.x2 + b.x1 * a.x2) + (
    a.x2 * b.x3 + b.x2 * a.x3)
}

/// The squared magnitude of a sum or difference expands through the
/// bilinear cross terms.
pub proof fn lemma_cross_expand(a: AmpM, b: AmpM)
    ensures
        p_norm(m_add(a, b)) == p_norm(a) + p_norm(b) + p_cross(a, b),
        p_norm(m_sub(a, b)) == p_norm(a) + p_norm(b) - p_cross(a, b),
        q_norm(m_add(a, b)) == q_norm(a) + q_norm(b) + q_cross(a, b),
        q_norm(m_sub(a, b)) == q_norm(a) + q_norm(b) - q_cross(a, b),
{
    let (a0, a1, a2, a3) = (a.x0, a.x1, a.x2, a.x3);
    let (b0, b1, b2, b3) = (b.x0, b.x1, b.x2, b.x3);
    assert((a0 + b0) * (a0 + b0) == a0 * a0 + b0 * b0 + 2 * (a0 * b0) && (a1 + b1) * (a1 + b1)
        == a1 * a1 + b1 * b1 + 2 * (a1 * b1) && (a2 + b2) * (a2 + b2) == a2 * a2 + b2 * b2 + 2 * (
    a2 * b2) && (a3 + b3) * (a3 + b3) == a3 * a3 + b3 * b3 + 2 * (a3 * b3)) by (nonlinear_arith);
    assert((a0 - b0) * (a0 - b0) == a0 * a0 + b0 * b0 - 2 * (a0 * b0) && (a1 - b1) * (a1 - b1)
        == a1 * a1 + b1 * b1 - 2 * (a1 * b1) && (a2 - b2) * (a2 - b2) == a2 * a2 + b2 * b2 - 2 * (
    a2 * b2) && (a3 - b3) * (a3 - b3) == a3 * a3 + b3 * b3 - 2 * (a3 * b3)) by (nonlinear_arith);
    assert((a0 + b0) * (a1 + b1) == a0 * a1 + b0 * b1 + (a0 * b1 + b0 * a1) && (a0 + b0) * (a3
        + b3) == a0 * a3 + b0 * b3 + (a0 * b3 + b0 * a3) && (a1 + b1) * (a2 + b2) == a1 * a2 + b1
        * b2 + (a1 * b2 + b1 * a2) && (a2 + b2) * (a3 + b3) == a2 * a3 + b2 * b3 + (a2 * b3 + b2
        * a3)) by (nonlinear_arith);
    assert((a0 - b0) * (a1 - b1) == a0 * a1 + b0 * b1 - (a0 * b1 + b0 * a1) && (a0 - b0) * (a3
        - b3) == a0 * a3 + b0 * b3 - (a0 * b3 + b0 * a3) && (a1 - b1) * (a2 - b2) == a1 * a2 + b1
        * b2 - (a1 * b2 + b1 * a2) && (a2 - b2) * (a3 - b3) == a2 * a3 + b2 * b3 - (a2 * b3 + b2
        * a3)) by (nonlinear_arith);
}

/// The skew pairing vanishes: the cross terms of `(a, i*b)` and `(b, i*a)`
/// cancel each other.
pub proof fn lemma_skew_cross(a: AmpM, b: AmpM)
    ensures
        p_cross(a, m_rot2(b)) + p_cross(b, m_rot2(a)) == 0,
        q_cross(a, m_rot2(b)) + q_cross(b, m_rot2(a)) == 0,
{
    let (a0, a1, a2, a3) = (a.x0, a.x1, a.x2, a.x3);
    let (b0, b1, b2, b3) = (b.x0, b.x1, b.x2, b.x3);
    assert(2 * (a0 * (-b2) + a1 * (-b3) + a2 * b0 + a3 * b1) + 2 * (b0 * (-a2) + b1 * (-a3) + b2
        * a0 + b3 * a1) == 0) by (nonlinear_arith);
    assert((a0 * (-b3) + (-b2) * a1) - (a0 * b1 + (-b2) * a3) + (a1 * b0 + (-b3) * a2) + (a2 * b1
        + b0 * a3) + ((b0 * (-a3) + (-a2) * b1) - (b0 * a1 + (-a2) * b3) + (b1 * a0 + (-a3) * b2)
        + (b2 * a1 + a0 * b3)) == 0) by (nonlinear_arith);
}

/// The twisted pairing is adjoint: pairing `a` against `w*b` equals pairing
/// `w^-1*a` against `b`.
pub proof fn lemma_twist_cross(a: AmpM, b: AmpM)
    ensures
        p_cross(a, m_rot(b)) == p_cross(m_rot_inv(a), b),
        q_cross(a, m_rot(b)) == q_cross(m_rot_inv(a), b),
{
    let (a0, a1, a2, a3) = (a.x0, a.x1, a.x2, a.x3);
    let (b0, b1, b2, b3) = (b.x0, b.x1, b.x2, b.x3);
    assert(2 * (a0 * (-b3) + a1 * b0 + a2 * b1 + a3 * b2) == 2 * (a1 * b0 + a2 * b1 + a3 * b2 + (
    -a0) * b3)) by (nonlinear_arith);
    assert((a0 * b0 + (-b3) * a1) - (a0 * b2 + (-b3) * a3) + (a1 * b1 + b0 * a2) + (a2 * b2 + b1
        * a3) == (a1 * b1 + b0 * a2) - (a1 * b3 + b0 * (-a0)) + (a2 * b2 + b1 * a3) + (a3 * b3 + b2
        * (-a0))) by (nonlinear_arith);
}

/// Rotations and negation are norm-preserving: they multiply by a unit
/// complex number.
pub proof fn lemma_rot_norm(a: AmpM)
    ensures
        p_norm(m_rot(a)) == p_norm(a),
        q_norm(m_rot(a)) == q_norm(a),
        p_norm(m_rot2(a)) == p_norm(a),
        q_norm(m_rot2(a)) == q_norm(a),
        p_norm(m_rot_inv(a)) == p_norm(a),
        q_norm(m_rot_inv(a)) == q_norm(a),
        p_norm(m_neg(a)) == p_norm(a),
        q_norm(m_neg(a)) == q_norm(a),
{
    let (x0, x1, x2, x3) = (a.x0, a.x1, a.x2, a.x3);
    assert((-x3) * (-x3) == x3 * x3 && (-x0) * (-x0) == x0 * x0 && (-x1) * (-x1) == x1 * x1
        && (-x2) * (-x2) == x2 * x2) by (nonlinear_arith);
    assert((-x3) * x0 - (-x3) * x2 + x0 * x1 + x1 * x2 == x0 * x1 - x0 * x3 + x1 * x2 + x2 * x3)
        by (nonlinear_arith);
    assert((-x2) * (-x3) - (-x2) * x1 + (-x3) * x0 + x0 * x1 == x0 * x1 - x0 * x3 + x1 * x2
        + x2 * x3) by (nonlinear_arith);
    assert(x1 * x2 - x1 * (-x0) + x2 * x3 + x3 * (-x0) == x0 * x1 - x0 * x3 + x1 * x2 + x2 * x3)
        by (nonlinear_arith);
    assert((-x0) * (-x1) - (-x0) * (-x3) + (-x1) * (-x2) + (-x2) * (-x3) == x0 * x1 - x0 * x3 + x1
        * x2 + x2 * x3) by (nonlinear_arith);
}

/// The butterfly of a norm-preserving pair update: both Hadamard halves
/// together double the pair's squared magnitude (the `1/sqrt(2)` scale is
/// accounted for by the state's global exponent).
pub proof fn lemma_butterfly_norm(a: AmpM, b: AmpM)
    ensures
        p_norm(m_add(a, b)) + p_norm(m_sub(a, b)) == 2 * (p_norm(a) + p_norm(b)),
        q_norm(m_add(a, b)) + q_norm(m_sub(a, b)) == 2 * (q_norm(a) + q_norm(b)),
{
    lemma_cross_expand(a, b);
}

/// As `lemma_butterfly_norm`, for the skew butterfly `(a - i*b, b - i*a)`
/// that underlies the square root of X.
pub proof fn lemma_skew_butterfly_norm(a: AmpM, b: AmpM)
    ensures
        p_norm(m_sub(a, m_rot2(b))) + p_norm(m_sub(b, m_rot2(a))) == 2 * (p_norm(a) + p_norm(b)),
        q_norm(m_sub(a, m_rot2(b))) + q_norm(m_sub(b, m_rot2(a))) == 2 * (q_norm(a) + q_norm(b)),
{
    lemma_cross_expand(a, m_rot2(b));
    lemma_cross_expand(b, m_rot2(a));
    lemma_rot_norm(a);
    lemma_rot_norm(b);
    lemma_skew_cross(a, b);
}

/// As `lemma_butterfly_norm`, for the twisted butterfly
/// `(a - w*b, w^-1*a + b)` that underlies the square root of W.
pub proof fn lemma_twist_butterfly_norm(a: AmpM, b: AmpM)
    ensures
        p_norm(m_sub(a, m_rot(b))) + p_norm(m_add(m_rot_inv(a), b)) == 2 * (p_norm(a) + p_norm(b)),
        q_norm(m_sub(a, m_rot(b))) + q_norm(m_add(m_rot_inv(a), b)) == 2 * (q_norm(a) + q_norm(b)),
{
    lemma_cross_expand(a, m_rot(b));
    lemma_cross_expand(m_rot_inv(a), b);
    lemma_rot_norm(a);
    lemma_rot_norm(b);
    lemma_twist_cross(a, b);
}

/// A squared magnitude is a nonnegative real: `p_norm >= 0`, and
/// `p_norm^2 - 2 * q_norm^2 >= 0`, witnessed by the exact identity
/// `p^2 - 2*q^2 == e^2 + 2*f^2` with
/// `e = x0^2 + x2^2 - x1^2 - x3^2` and
/// `f = x1*x2 - x2*x3 - x0*x1 - x0*x3`
/// (the product of the magnitude with its conjugate under `sqrt(2) -> -sqrt(2)`).
pub proof fn lemma_norm_nonneg(a: AmpM)
    ensures
        p_norm(a) >= 0,
        p_norm(a) * p_norm(a) >= 2 * (q_norm(a) * q_norm(a)),
        q_norm(a) <= p_norm(a),
        -p_norm(a) <= q_norm(a),
{
    let (x0, x1, x2, x3) = (a.x0, a.x1, a.x2, a.x3);
    let p = p_norm(a);
    let q = q_norm(a);
    assert(p >= 0) by (nonlinear_arith)
        requires
            p == x0 * x0 + x1 * x1 + x2 * x2 + x3 * x3,
    ;
    let e = x0 * x0 + x2 * x2 - x1 * x1 - x3 * x3;
    let f = x1 * x2 - x2 * x3 - x0 * x1 - x0 * x3;
    // With g = x0 + x2 and h = x2 - x0:
    //   q == x1*g + x3*h,   f == x1*h - x3*g,   g^2 + h^2 == p + e,
    // so 2*(q^2 + f^2) == 2*(x1^2 + x3^2)*(g^2 + h^2) == (p - e)*(p + e),
    // which gives p^2 - 2*q^2 == e^2 + 2*f^2 >= 0.
    let g = x0 + x2;
    let h = x2 - x0;
    assert(q == x1 * g + x3 * h) by (nonlinear_arith)
        requires
            q == x0 * x1 - x0 * x3 + x1 * x2 + x2 * x3,
            g == x0 + x2,
            h == x2 - x0,
    ;
    assert(f == x1 * h - x3 * g) by (nonlinear_arith)
        requires
            f == x1 * x2 - x2 * x3 - x0 * x1 - x0 * x3,
            g == x0 + x2,
            h == x2 - x0,
    ;
    let u1 = x1 * g;
    let v1 = x3 * h;
    let u2 = x1 * h;
    let v2 = x3 * g;
    assert((u1 + v1) * (u1 + v1) == u1 * u1 + 2 * (u1 * v1) + v1 * v1) by (nonlinear_arith);
    assert((u2 - v2) * (u2 - v2) == u2 * u2 - 2 * (u2 * v2) + v2 * v2) by (nonlinear_arith);
    assert(u1 * v1 == u2 * v2 && u1 * u1 == (x1 * x1) * (g * g) && v1 * v1 == (x3 * x3) * (h * h)
        && u2 * u2 == (x1 * x1) * (h * h) && v2 * v2 == (x3 * x3) * (g * g)) by (nonlinear_arith)
        requires
            u1 == x1 * g,
            v1 == x3 * h,
            u2 == x1 * h,
            v2 == x3 * g,
    ;
    assert((x1 * x1 + x3 * x3) * (g * g + h * h) == (x1 * x1) * (g * g) + (x1 * x1) * (h * h) + (
    x3 * x3) * (g * g) + (x3 * x3) * (h * h)) by (nonlinear_arith);
    assert((x1 * g + x3 * h) * (x1 * g + x3 * h) + (x1 * h - x3 * g) * (x1 * h - x3 * g) == (x1
        * x1 + x3 * x3) * (g * g + h * h));
    assert(g * g + h * h == p + e) by (nonlinear_arith)
        requires
            g == x0 + x2,
            h == x2 - x0,
            p == x0 * x0 + x1 * x1 + x2 * x2 + x3 * x3,
            e == x0 * x0 + x2 * x2 - x1 * x1 - x3 * x3,
    ;
    assert(2 * ((x1 * x1 + x3 * x3) * (p + e)) == (p - e) * (p + e)) by (nonlinear_arith)
        requires
            p - e == 2 * (x1 * x1 + x3 * x3),
    ;
    assert(2 * (q * q + f * f) == (p - e) * (p + e)) by {
        assert(p - e == 2 * (x1 * x1 + x3 * x3));
        assert(q * q + f * f == (x1 * x1 + x3 * x3) * (p + e));
    }
    assert(p * p - 2 * (q * q) == e * e + 2 * (f * f)) by (nonlinear_arith)
        requires
            2 * (q * q + f * f) == (p - e) * (p + e),
    ;
    assert(e * e + 2 * (f * f) >= 0) by (nonlinear_arith);
    assert(q <= p && -p <= q) by (nonlinear_arith)
        requires
            p >= 0,
            p * p >= 2 * (q * q),
    ;
}

/// A product of two values bounded by `b` in magnitude is bounded by `b*b`.
pub proof fn lemma_prod_bound(x: int, y: int, b: int)
    requires
        b >= 0,
        -b <= x <= b,
        -b <= y <= b,
    ensures
        -(b * b) <= x * y <= b * b,
{
    assert(-(b * b) <= x * y <= b * b) by (nonlinear_arith)
        requires
            b >= 0,
            -b <= x <= b,
            -b <= y <= b,
    ;
}

/// Coordinates are bounded by the square root of the squared magnitude's
/// integer part: if `p_norm(a) <= bound * bound` then every coordinate lies
/// in `[-bound, bound]`.
pub proof fn lemma_coord_bound(a: AmpM, bound: int)
    requires
        bound >= 0,
        p_norm(a) <= bound * bound,
    ensures
        -bound <= a.x0 <= bound,
        -bound <= a.x1 <= bound,
        -bound <= a.x2 <= bound,
        -bound <= a.x3 <= bound,
{
    let (x0, x1, x2, x3) = (a.x0, a.x1, a.x2, a.x3);
    assert(-bound <= x0 <= bound && -bound <= x1 <= bound && -bound <= x2 <= bound && -bound <= x3
        <= bound) by (nonlinear_arith)
        requires
            bound >= 0,
            x0 * x0 + x1 * x1 + x2 * x2 + x3 * x3 <= bound * bound,
    ;
}

} // verus!
