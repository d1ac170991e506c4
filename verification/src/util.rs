//! Powers of two and the small division facts used to address amplitude
//! pairs inside a state vector of length `2^n`.

use vstd::prelude::*;
use vstd::arithmetic::power2::{pow2, lemma_pow2_adds, lemma_pow2_pos, lemma_pow2_strictly_increases, lemma2_to64, lemma2_to64_rest};
use vstd::arithmetic::div_mod::lemma_fundamental_div_mod;

verus! {

/// `2^e` as a `usize`, for vector lengths.
pub fn pow2_usize(e: usize) -> (r: usize)
    requires
        pow2(e as nat) <= usize::MAX,
    ensures
        r == pow2(e as nat),
{
    let mut r: usize = 1;
    let mut i: usize = 0;
    proof {
        lemma2_to64();
    }
    while i < e
        invariant
            i <= e,
            r == pow2(i as nat),
            pow2(e as nat) <= usize::MAX,
        decreases e - i,
    {
        proof {
            lemma_pow2_adds(i as nat, 1);
            lemma2_to64();
            let next = (i + 1) as nat;
            if next < e as nat {
                lemma_pow2_strictly_increases(next, e as nat);
            }
        }
        r = r * 2;
        i = i + 1;
    }
    r
}

/// `2^e` as an `i128`, for scaling probabilities.
pub fn pow2_i128(e: u32) -> (r: i128)
    requires
        e <= 126,
    ensures
        r == pow2(e as nat),
        r >= 1,
{
    let mut r: i128 = 1;
    let mut i: u32 = 0;
    proof {
        lemma2_to64();
        lemma_pow2_adds(63, 63);
        lemma2_to64_rest();
        assert(pow2(126) == 0x8000000000000000 * 0x8000000000000000);
    }
    while i < e
        invariant
            i <= e,
            e <= 126,
            r == pow2(i as nat),
            pow2(126) < 0x8000_0000_0000_0000_0000_0000_0000_0000,
        decreases e - i,
    {
        proof {
            lemma_pow2_adds(i as nat, 1);
            lemma2_to64();
            let next = (i + 1) as nat;
            if next < 126 {
                lemma_pow2_strictly_increases(next, 126);
            }
        }
        r = r * 2;
        i = i + 1;
    }
    proof {
        lemma_pow2_pos(e as nat);
    }
    r
}

/// An index below `2^n` whose digit at place `2^q` is zero has its partner
/// `i + 2^q` also below `2^n`, and the partner's digit is one.
pub proof fn lemma_partner_in_range(i: int, q: nat, n: nat)
    requires
        q < n,
        0 <= i < pow2(n),
        (i / pow2(q) as int) % 2 == 0,
    ensures
        i + pow2(q) < pow2(n),
        ((i + pow2(q)) / pow2(q) as int) % 2 == 1,
        (i + pow2(q)) / pow2(q) as int == i / pow2(q) as int + 1,
{
    let p = pow2(q) as int;
    lemma_pow2_pos(q);
    lemma_fundamental_div_mod(i, p);
    let d = i / p;
    let r = i % p;
    assert((i + p) / p == d + 1 && (i + p) % p == r) by (nonlinear_arith)
        requires
            p > 0,
            0 <= r < p,
            i == p * d + r,
    ;
    lemma_fundamental_div_mod(d, 2);
    let s = d / 2;
    assert(d == 2 * s) by {
        assert(d % 2 == 0);
    }
    assert((d + 1) % 2 == 1) by (nonlinear_arith)
        requires
            d == 2 * s,
    ;
    // i = p * 2 * s + r with r < p, so i + p < p * 2 * (s + 1) <= 2^n.
    lemma_pow2_adds(q, 1);
    lemma2_to64();
    let pp = pow2((q + 1) as nat) as int;
    assert(pp == 2 * p);
    lemma_pow2_adds((q + 1) as nat, (n - q - 1) as nat);
    let blocks = pow2((n - q - 1) as nat) as int;
    lemma_pow2_pos((n - q - 1) as nat);
    assert(pow2(n) == pp * blocks);
    assert(s < blocks) by (nonlinear_arith)
        requires
            i == p * (2 * s) + r,
            0 <= r < p,
            p > 0,
            blocks > 0,
            i < pp * blocks,
            pp == 2 * p,
    ;
    assert(i + p < pp * (s + 1)) by (nonlinear_arith)
        requires
            i == p * (2 * s) + r,
            0 <= r < p,
            p > 0,
            pp == 2 * p,
    ;
    assert(pp * (s + 1) <= pp * blocks) by (nonlinear_arith)
        requires
            s + 1 <= blocks,
            pp > 0,
    ;
}

/// Adding the half length `2^(n-1)` to an index shifts its digit string up
/// without disturbing the digit at any place `2^q` with `q < n-1`.
pub proof fn lemma_upper_half_digit(m: int, q: nat, n: nat)
    requires
        n >= 1,
        q < n,
        0 <= m < pow2((n - 1) as nat),
    ensures
        q < n - 1 ==> (m + pow2((n - 1) as nat)) / pow2(q) as int
            == m / pow2(q) as int + pow2((n - 1 - q) as nat),
        q < n - 1 ==> ((m + pow2((n - 1) as nat)) / pow2(q) as int) % 2
            == (m / pow2(q) as int) % 2,
        q == n - 1 ==> (m / pow2(q) as int) % 2 == 0,
        q == n - 1 ==> ((m + pow2((n - 1) as nat)) / pow2(q) as int) % 2 == 1,
{
    let h = pow2((n - 1) as nat) as int;
    let p = pow2(q) as int;
    lemma_pow2_pos(q);
    lemma_pow2_pos((n - 1) as nat);
    if q < n - 1 {
        let c = pow2((n - 1 - q) as nat) as int;
        lemma_pow2_pos((n - 1 - q) as nat);
        lemma_pow2_adds(q, (n - 1 - q) as nat);
        assert(h == p * c);
        lemma_fundamental_div_mod(m, p);
        let d = m / p;
        let r = m % p;
        assert((m + h) / p == d + c && (m + h) % p == r) by (nonlinear_arith)
            requires
                p > 0,
                0 <= r < p,
                m == p * d + r,
                h == p * c,
        ;
        // c = 2^(n-1-q) is even because n - 1 - q >= 1.
        lemma_pow2_adds(1, (n - 2 - q) as nat);
        lemma2_to64();
        let cc = pow2((n - 2 - q) as nat) as int;
        assert(c == 2 * cc);
        lemma_fundamental_div_mod(d, 2);
        let s = d / 2;
        let b = d % 2;
        assert((d + c) % 2 == b) by (nonlinear_arith)
            requires
                d == 2 * s + b,
                0 <= b < 2,
                c == 2 * cc,
        ;
    } else {
        // q == n - 1: the digit at the top place is m / 2^(n-1).
        assert(m / p == 0) by (nonlinear_arith)
            requires
                p > 0,
                0 <= m < p,
        ;
        assert((m + h) / p == 1) by (nonlinear_arith)
            requires
                p > 0,
                h == p,
                0 <= m < p,
        ;
    }
}

} // verus!
