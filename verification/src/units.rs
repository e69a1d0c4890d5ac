//! Why a number coprime to the modulus has a multiplicative order: its powers
//! can be cancelled, so the first power that repeats is the power 0.

use crate::divisors::gcd_of;
use crate::order::{lemma_power_mod_bound, lemma_power_mod_step, power_mod};
use vstd::arithmetic::div_mod::{lemma_fundamental_div_mod, lemma_small_mod};
use vstd::arithmetic::power::lemma_pow0;
use vstd::prelude::*;

verus! {

/// Bezout's identity: the greatest common divisor of `a` and `b` is a sum of
/// integer multiples of `a` and `b`. The two multipliers are returned.
pub proof fn lemma_bezout(a: nat, b: nat) -> (c: (int, int))
    ensures
        a * c.0 + b * c.1 == gcd_of(a, b),
    decreases b,
{
    if b == 0 {
        (1, 0)
    } else {
        let (p, q) = lemma_bezout(b, a % b);
        let k = (a / b) as int;
        let r = (a % b) as int;
        lemma_fundamental_div_mod(a as int, b as int);
        assert(a * q + b * (p - k * q) == b * p + r * q) by (nonlinear_arith)
            requires
                a == b * k + r,
        ;
        (q, p - k * q)
    }
}

/// A factor coprime to the modulus can be cancelled from a congruence.
pub proof fn lemma_coprime_cancels(a: nat, n: nat, u: nat, v: nat)
    requires
        n > 0,
        gcd_of(a, n) == 1,
        u < n,
        v < n,
        (a * u) % n == (a * v) % n,
    ensures
        u == v,
{
    let (p, q) = lemma_bezout(a, n);
    let d = u - v;
    let tu = ((a * u) / n) as int;
    let tv = ((a * v) / n) as int;
    lemma_fundamental_div_mod((a * u) as int, n as int);
    lemma_fundamental_div_mod((a * v) as int, n as int);
    let t = tu - tv;
    assert(a * d == n * t) by (nonlinear_arith)
        requires
            a * u == n * tu + (a * u) % n,
            a * v == n * tv + (a * v) % n,
            (a * u) % n == (a * v) % n,
            d == u - v,
            t == tu - tv,
    ;
    let w = t * p + d * q;
    assert(d == n * w) by (nonlinear_arith)
        requires
            a * p + n * q == 1,
            a * d == n * t,
            w == t * p + d * q,
    ;
    assert(w == 0) by (nonlinear_arith)
        requires
            d == n * w,
            -n < d < n,
            n > 0,
    ;
}

/// Two equal powers of a number coprime to the modulus stay equal when both
/// exponents are lowered by the smaller one: the power of their difference
/// is the power 0.
pub proof fn lemma_equal_powers_cancel(a: nat, n: nat, i: nat, j: nat)
    requires
        n > 0,
        gcd_of(a, n) == 1,
        i <= j,
        power_mod(a, i, n) == power_mod(a, j, n),
    ensures
        power_mod(a, (j - i) as nat, n) == power_mod(a, 0, n),
    decreases i,
{
    if i > 0 {
        let i1 = (i - 1) as nat;
        let j1 = (j - 1) as nat;
        lemma_power_mod_step(a, i1, n);
        lemma_power_mod_step(a, j1, n);
        lemma_power_mod_bound(a, i1, n);
        lemma_power_mod_bound(a, j1, n);
        let u = power_mod(a, i1, n);
        let v = power_mod(a, j1, n);
        assert(a * u == u * a && a * v == v * a) by (nonlinear_arith);
        lemma_coprime_cancels(a, n, u, v);
        lemma_equal_powers_cancel(a, n, i1, j1);
    }
}

/// The pigeonhole principle: of more than `n` values below `n`, two are
/// equal. The two positions are returned.
pub proof fn lemma_pigeonhole(f: spec_fn(nat) -> nat, n: nat, m: nat) -> (c: (nat, nat))
    requires
        m > n,
        forall|s: nat| s < m ==> #[trigger] f(s) < n,
    ensures
        c.0 < c.1 < m,
        f(c.0) == f(c.1),
    decreases n,
{
    if n == 0 {
        assert(f(0) < n);
        (0, 0)
    } else {
        let top = (n - 1) as nat;
        if forall|s: nat| s < m ==> #[trigger] f(s) != top {
            assert forall|s: nat| s < m implies #[trigger] f(s) < top by {
                assert(f(s) < n);
            }
            lemma_pigeonhole(f, top, m)
        } else {
            let s0 = choose|s: nat| s < m && #[trigger] f(s) == top;
            if exists|s: nat| s < m && s != s0 && #[trigger] f(s) == top {
                let s1 = choose|s: nat| s < m && s != s0 && #[trigger] f(s) == top;
                if s0 < s1 {
                    (s0, s1)
                } else {
                    (s1, s0)
                }
            } else {
                let g = |s: nat|
                    if s < s0 {
                        f(s)
                    } else {
                        f(s + 1)
                    };
                let shorter = (m - 1) as nat;
                assert forall|s: nat| s < shorter implies #[trigger] g(s) < top by {
                    let at = if s < s0 {
                        s
                    } else {
                        s + 1
                    };
                    assert(f(at) < n);
                    assert(at != s0);
                }
                let (i, j) = lemma_pigeonhole(g, top, shorter);
                let i2 = if i < s0 {
                    i
                } else {
                    i + 1
                };
                let j2 = if j < s0 {
                    j
                } else {
                    j + 1
                };
                (i2, j2)
            }
        }
    }
}

/// A number coprime to a modulus of at least 2 has a multiplicative order,
/// and that order is at most the modulus: some exponent from 1 to `n` takes
/// `a` to 1. The exponent is returned.
pub proof fn lemma_coprime_has_order(a: nat, n: nat) -> (k: nat)
    requires
        n >= 2,
        gcd_of(a, n) == 1,
    ensures
        1 <= k <= n,
        power_mod(a, k, n) == 1,
{
    let f = |s: nat| power_mod(a, s, n);
    assert forall|s: nat| s < n + 1 implies #[trigger] f(s) < n by {
        lemma_power_mod_bound(a, s, n);
    }
    let (i, j) = lemma_pigeonhole(f, n, n + 1);
    lemma_equal_powers_cancel(a, n, i, j);
    lemma_pow0(a as int);
    lemma_small_mod(1, n);
    (j - i) as nat
}

/// Modulo 1 every power is 0, so nothing has an order.
pub proof fn lemma_no_order_modulo_one(a: nat, k: nat)
    ensures
        power_mod(a, k, 1) == 0,
{
    lemma_power_mod_bound(a, k, 1);
}

} // verus!
