//! Factoring by order finding: the classical skeleton of Shor's algorithm,
//! with the random base drawn from the thread-local generator.

use crate::divisors::{divides, gcd, gcd_of, lemma_gcd_is_greatest};
use crate::entropy::draw_in_range;
use crate::order::{find_order, mod_pow, order_of};
use vstd::arithmetic::power::pow;
use vstd::prelude::*;

verus! {

/// How many random bases `simplified_shors_algorithm` tries before it gives up.
pub const ATTEMPTS: u32 = 100;

/// `d` divides `n` and is neither 1 nor `n`.
pub open spec fn is_nontrivial_divisor(d: nat, n: nat) -> bool {
    1 < d < n && n % d == 0
}

/// What one attempt with the base `a` finds for `n`.
///
/// A base that shares a divisor `g > 1` with `n` gives `g` and its cofactor.
/// A coprime base of even order `k` gives the common divisors of `n` with
/// `a^(k/2) + 1` and with `a^(k/2) - 1`, when both are proper. Every other
/// base gives nothing.
pub open spec fn attempt_outcome(n: nat, a: nat) -> Option<(nat, nat)> {
    let g = gcd_of(a, n);
    if g != 1 {
        Some((g, n / g))
    } else {
        match order_of(a, n) {
            Some(k) => {
                let root = pow(a as int, k / 2);
                let f1 = gcd_of(((root + 1) % (n as int)) as nat, n);
                let f2 = gcd_of(((root - 1) % (n as int)) as nat, n);
                if k % 2 == 0 && f1 != 1 && f1 != n && f2 != 1 && f2 != n {
                    Some((f1, f2))
                } else {
                    None
                }
            },
            None => None,
        }
    }
}

/// The pair of machine integers `found` is the pair of naturals `wanted`.
pub open spec fn same_pair(found: Option<(u64, u64)>, wanted: Option<(nat, nat)>) -> bool {
    match (found, wanted) {
        (Some(f), Some(w)) => f.0 == w.0 && f.1 == w.1,
        (None, None) => true,
        _ => false,
    }
}

/// A common divisor other than 1 and `n` is a nontrivial divisor of `n`.
proof fn lemma_proper_gcd_is_nontrivial(x: nat, n: nat)
    requires
        n > 0,
        gcd_of(x, n) != 1,
        gcd_of(x, n) != n,
    ensures
        is_nontrivial_divisor(gcd_of(x, n), n),
{
    let g = gcd_of(x, n);
    lemma_gcd_is_greatest(x, n);
    assert(divides(g, n));
    assert(g != 0);
    lemma_divisor_at_most(g, n);
}

/// A divisor of a positive number is not larger than it.
proof fn lemma_divisor_at_most(d: nat, n: nat)
    requires
        n > 0,
        d > 0,
        n % d == 0,
    ensures
        d <= n,
{
    vstd::arithmetic::div_mod::lemma_fundamental_div_mod(n as int, d as int);
    let q = n / d;
    assert(n == d * q);
    assert(d <= d * q) by (nonlinear_arith)
        requires
            d * q > 0,
            d > 0,
            q >= 0,
    ;
}

/// The cofactor `n / g` of a nontrivial divisor `g` is a nontrivial divisor
/// too, and the two multiply to `n`.
proof fn lemma_cofactor_is_nontrivial(g: nat, n: nat)
    requires
        is_nontrivial_divisor(g, n),
    ensures
        is_nontrivial_divisor(n / g, n),
        g * (n / g) == n,
{
    let q = n / g;
    vstd::arithmetic::div_mod::lemma_fundamental_div_mod(n as int, g as int);
    assert(n == g * q);
    assert(q > 1 && q < n) by (nonlinear_arith)
        requires
            n == g * q,
            1 < g < n,
    ;
    vstd::arithmetic::div_mod::lemma_mod_multiples_basic(g as int, q as int);
    assert(g * q == q * g) by (nonlinear_arith);
}

/// One attempt at factoring `n` with the base `a`.
///
/// The result is `attempt_outcome(n, a)`. For a base from 2 to `n - 1` both
/// numbers found are nontrivial divisors of `n`.
pub fn factor_attempt(n: u64, a: u64) -> (r: Option<(u64, u64)>)
    requires
        n > 0,
    ensures
        same_pair(r, attempt_outcome(n as nat, a as nat)),
        2 <= a < n ==> match r {
            Some(f) => is_nontrivial_divisor(f.0 as nat, n as nat) && is_nontrivial_divisor(
                f.1 as nat,
                n as nat,
            ),
            None => true,
        },
{
    let g = gcd(a, n);
    if g != 1 {
        proof {
            lemma_gcd_is_greatest(a as nat, n as nat);
            if 2 <= a < n {
                lemma_divisor_at_most(g as nat, a as nat);
                lemma_cofactor_is_nontrivial(g as nat, n as nat);
            }
        }
        return Some((g, n / g));
    }
    match find_order(a, n) {
        Some(k) => {
            if k % 2 == 0 {
                let root = mod_pow(a, k / 2, n);
                let above = (root + 1) % n;
                let below = if root == 0 {
                    n - 1
                } else {
                    root - 1
                };
                proof {
                    lemma_neighbours_mod(pow(a as int, (k / 2) as nat), n as int);
                }
                let f1 = gcd(above, n);
                let f2 = gcd(below, n);
                if f1 != 1 && f1 != n && f2 != 1 && f2 != n {
                    proof {
                        lemma_proper_gcd_is_nontrivial(above as nat, n as nat);
                        lemma_proper_gcd_is_nontrivial(below as nat, n as nat);
                    }
                    return Some((f1, f2));
                }
            }
            None
        },
        None => None,
    }
}

/// The neighbours of `p` modulo `n`, from the remainder of `p`.
proof fn lemma_neighbours_mod(p: int, n: int)
    requires
        n > 0,
    ensures
        (p + 1) % n == ((p % n) + 1) % n,
        (p - 1) % n == if p % n == 0 {
            n - 1
        } else {
            p % n - 1
        },
{
    vstd::arithmetic::div_mod::lemma_mod_bound(p, n);
    vstd::arithmetic::div_mod::lemma_add_mod_noop(p, 1, n);
    vstd::arithmetic::div_mod::lemma_sub_mod_noop(p, 1, n);
    vstd::arithmetic::div_mod::lemma_mod_twice(p, n);
    let h = p % n;
    if n == 1 {
    } else {
        vstd::arithmetic::div_mod::lemma_small_mod(1, n as nat);
        if h == 0 {
            vstd::arithmetic::div_mod::lemma_mod_multiples_vanish(1, -1, n);
            vstd::arithmetic::div_mod::lemma_small_mod((n - 1) as nat, n as nat);
        } else {
            vstd::arithmetic::div_mod::lemma_small_mod((h - 1) as nat, n as nat);
        }
    }
}

/// Tries to split `n` into two factors.
///
/// An even `n` is split into 2 and `n / 2`. For an odd `n`, up to `ATTEMPTS`
/// bases are drawn at random from 2 to `n - 1`, and the first attempt that
/// finds something decides: the pair returned is what `attempt_outcome` gives
/// for some base in that range, and both its numbers are nontrivial divisors
/// of `n`. Whether any attempt succeeds depends on the bases drawn, so
/// `None` promises nothing about `n`.
pub fn simplified_shors_algorithm(n: u64) -> (r: Option<(u64, u64)>)
    requires
        n != 1,
    ensures
        n % 2 == 0 ==> r == Some((2u64, (n / 2) as u64)),
        n % 2 == 1 ==> match r {
            Some(f) => {
                &&& exists|a: u64|
                    2 <= a < n && same_pair(r, #[trigger] attempt_outcome(n as nat, a as nat))
                &&& is_nontrivial_divisor(f.0 as nat, n as nat)
                &&& is_nontrivial_divisor(f.1 as nat, n as nat)
            },
            None => true,
        },
{
    if n % 2 == 0 {
        return Some((2, n / 2));
    }
    let mut rng = rand::thread_rng();
    let mut tries: u32 = 0;
    while tries < ATTEMPTS
        invariant
            n % 2 == 1,
            n >= 3,
        decreases ATTEMPTS - tries,
    {
        let a = draw_in_range(&mut rng, 2, n);
        let found = factor_attempt(n, a);
        if found.is_some() {
            return found;
        }
        tries = tries + 1;
    }
    None
}

} // verus!
