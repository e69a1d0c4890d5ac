//! The phases behind the unitarity of the Fourier matrix of a power-of-two
//! dimension.
//!
//! Write `F` for the forward matrix of dimension `N` and `G` for the inverse
//! one. The entry of `G * F` at row `i` and column `l` is the sum over `k` of
//! `G[i][k] * F[k][l]`, and term `k` of that sum is a fixed positive scale
//! times the root of unity with the exponent `product_term_phase(i, l, k, N)`.
//!
//! What is proved here is about those exponents, which are integers: on the
//! diagonal every term has the exponent 0, and off the diagonal some shift of
//! `k` adds half a turn, `N / 2`, to the exponent of every term. In exact
//! complex arithmetic the first makes the `N` terms of a diagonal entry equal,
//! and the second makes an off-diagonal sum equal to its own negative, hence
//! zero. That last step is arithmetic on scalars and is not stated here: with
//! floating-point scalars it holds only up to rounding.

use crate::phase::{lemma_negated_mod, phase_of, Direction};
use vstd::arithmetic::div_mod::{
    lemma_add_mod_noop, lemma_fundamental_div_mod, lemma_mod_bound, lemma_mod_multiples_vanish,
    lemma_mul_mod_noop_general, lemma_small_mod,
};
use vstd::arithmetic::power2::{lemma_pow2_pos, lemma_pow2_unfold, pow2};
use vstd::prelude::*;

verus! {

/// The exponent of term `k` of the entry at `(i, l)` of the product of the
/// inverse matrix with the forward matrix.
pub open spec fn product_term_phase(i: nat, l: nat, k: nat, dim: nat) -> nat
    recommends
        dim > 0,
{
    (phase_of(Direction::Inverse, i, k, dim) + phase_of(Direction::Forward, k, l, dim)) % dim
}

/// Term `k` of the entry at `(i, l)` turns by `k * (l - i)` steps.
pub proof fn lemma_product_term_phase(i: nat, l: nat, k: nat, dim: nat)
    requires
        dim > 0,
    ensures
        product_term_phase(i, l, k, dim) == (k * (l - i)) % (dim as int),
{
    let n = dim as int;
    let back = -1 * (i * k);
    let forth = 1 * ((k * l) as int);
    assert(back + forth == k * (l - i)) by (nonlinear_arith)
        requires
            back == -1 * (i * k),
            forth == 1 * (k * l),
    ;
    lemma_add_mod_noop(back, forth, n);
    lemma_mod_bound(k * (l - i), n);
}

/// On the diagonal of the product every term has the exponent 0.
pub proof fn lemma_diagonal_terms_align(i: nat, k: nat, dim: nat)
    requires
        dim > 0,
    ensures
        product_term_phase(i, i, k, dim) == 0,
{
    lemma_product_term_phase(i, i, k, dim);
    assert(k * (i - i) == 0) by (nonlinear_arith);
    lemma_small_mod(0, dim);
}

/// For a step `m` that is not a multiple of `2^bits`, some number of steps
/// makes exactly half a turn.
proof fn lemma_half_turn(bits: nat, m: int) -> (s: int)
    requires
        bits >= 1,
        m % (pow2(bits) as int) != 0,
    ensures
        0 < s < pow2(bits),
        (m * s) % (pow2(bits) as int) == pow2(bits) / 2,
    decreases bits,
{
    let full = pow2(bits) as int;
    let half = pow2((bits - 1) as nat) as int;
    lemma_pow2_unfold(bits);
    lemma_pow2_pos((bits - 1) as nat);
    assert(full == 2 * half);
    if m % 2 == 1 {
        let a = (m - 1) / 2;
        assert(m == 2 * a + 1);
        assert(m * half == full * a + half) by (nonlinear_arith)
            requires
                m == 2 * a + 1,
                full == 2 * half,
        ;
        lemma_mod_multiples_vanish(a, half, full);
        lemma_small_mod(half as nat, full as nat);
        half
    } else {
        let m2 = m / 2;
        assert(m == 2 * m2);
        if bits == 1 {
            vstd::arithmetic::power2::lemma2_to64();
            assert(full == 2);
            assert(false);
        }
        let quarter = pow2((bits - 2) as nat) as int;
        lemma_pow2_unfold((bits - 1) as nat);
        lemma_pow2_pos((bits - 2) as nat);
        assert(half == 2 * quarter);
        if m2 % half == 0 {
            lemma_fundamental_div_mod(m2, half);
            let q = m2 / half;
            assert(m == full * q + 0) by (nonlinear_arith)
                requires
                    m == 2 * m2,
                    m2 == half * q,
                    full == 2 * half,
            ;
            lemma_mod_multiples_vanish(q, 0, full);
            lemma_small_mod(0, full as nat);
            assert(false);
        }
        let s = lemma_half_turn((bits - 1) as nat, m2);
        lemma_fundamental_div_mod(m2 * s, half);
        let q = (m2 * s) / half;
        assert(m * s == full * q + half) by (nonlinear_arith)
            requires
                m == 2 * m2,
                m2 * s == half * q + quarter,
                full == 2 * half,
                half == 2 * quarter,
        ;
        lemma_mod_multiples_vanish(q, half, full);
        lemma_small_mod(half as nat, full as nat);
        s
    }
}

/// Off the diagonal of the product, for a dimension `N = 2^n_bits`, there is
/// a shift `s` of the summation index that adds half a turn to every term:
/// the exponent of the term at `(k + s) % N` is the exponent of the term at
/// `k` plus `N / 2`, reduced. The shift is returned.
pub proof fn lemma_off_diagonal_half_turn(n_bits: nat, i: nat, l: nat) -> (s: nat)
    requires
        i < pow2(n_bits),
        l < pow2(n_bits),
        i != l,
    ensures
        0 < s < pow2(n_bits),
        pow2(n_bits) % 2 == 0,
        forall|k: nat|
            k < pow2(n_bits) ==> #[trigger] product_term_phase(
                i,
                l,
                (k + s) % pow2(n_bits),
                pow2(n_bits),
            ) == (product_term_phase(i, l, k, pow2(n_bits)) + pow2(n_bits) / 2) % pow2(n_bits),
{
    let dim = pow2(n_bits);
    let n = dim as int;
    let m = l - i;
    if n_bits == 0 {
        vstd::arithmetic::power2::lemma2_to64();
        assert(false);
    }
    lemma_pow2_unfold(n_bits);
    assert(m % n != 0) by {
        if m > 0 {
            lemma_small_mod(m as nat, dim);
        } else {
            lemma_negated_mod(-m, n);
            lemma_small_mod((-m) as nat, dim);
            assert(-1 * (-m) == m);
        }
    }
    let s = lemma_half_turn(n_bits, m);
    assert forall|k: nat| k < dim implies #[trigger] product_term_phase(i, l, (k + s) as nat % dim, dim)
        == (product_term_phase(i, l, k, dim) + dim / 2) % dim by {
        let k2 = ((k + s) % n) as nat;
        lemma_product_term_phase(i, l, k2, dim);
        lemma_product_term_phase(i, l, k, dim);
        // k2 * m == (k + s) * m == k * m + s * m   (mod n)
        lemma_mul_mod_noop_general(k + s, m, n);
        assert((k2 * m) % n == ((k + s) * m) % n);
        assert((k + s) * m == k * m + m * s) by (nonlinear_arith);
        lemma_add_mod_noop(k * m, m * s, n);
    }
    s as nat
}

} // verus!
