//! Modular powers and the multiplicative order of a number.

use crate::divisors::{gcd, gcd_of};
use crate::units::{lemma_coprime_has_order, lemma_no_order_modulo_one};
use std::collections::HashSet;
use vstd::arithmetic::div_mod::{lemma_mod_bound, lemma_mul_mod_noop_general, lemma_small_mod};
use vstd::arithmetic::power::{lemma_pow0, lemma_pow_adds, pow};
use vstd::prelude::*;

verus! {

/// `a` to the power `e`, reduced modulo `n`.
pub open spec fn power_mod(a: nat, e: nat, n: nat) -> nat
    recommends
        n > 0,
{
    (pow(a as int, e) % (n as int)) as nat
}

/// `k` is the multiplicative order of `a` modulo `n`: the least positive
/// exponent that takes `a` to 1.
pub open spec fn is_order(a: nat, n: nat, k: nat) -> bool {
    &&& k >= 1
    &&& power_mod(a, k, n) == 1
    &&& forall|s: nat| 1 <= s < k ==> power_mod(a, s, n) != 1
}

/// The multiplicative order of `a` modulo `n` where it is at most `n`: `Some`
/// of it when `a` and `n` are coprime and such an order exists.
pub open spec fn order_of(a: nat, n: nat) -> Option<nat> {
    if gcd_of(a, n) == 1 && exists|k: nat| k <= n && is_order(a, n, k) {
        Some(choose|k: nat| k <= n && is_order(a, n, k))
    } else {
        None
    }
}

/// A number has at most one order.
pub proof fn lemma_order_unique(a: nat, n: nat, k1: nat, k2: nat)
    requires
        is_order(a, n, k1),
        is_order(a, n, k2),
    ensures
        k1 == k2,
{
}

/// No exponent from 1 to `bound` takes `a` to 1 modulo `n`.
pub open spec fn no_unit_power_within(a: nat, n: nat, bound: nat) -> bool {
    forall|s: nat| 1 <= s <= bound ==> power_mod(a, s, n) != 1
}

/// Some exponent from 1 to `r - 1` takes `a` to `v` modulo `n`.
spec fn reached(a: nat, n: nat, r: nat, v: nat) -> bool {
    exists|s: nat| 1 <= s < r && #[trigger] power_mod(a, s, n) == v
}

/// A modular power is a remainder.
pub proof fn lemma_power_mod_bound(a: nat, e: nat, n: nat)
    requires
        n > 0,
    ensures
        power_mod(a, e, n) < n,
{
    lemma_mod_bound(pow(a as int, e), n as int);
}

/// One more factor `a`: the next power is the last one times `a`, reduced.
pub proof fn lemma_power_mod_step(a: nat, e: nat, n: nat)
    requires
        n > 0,
    ensures
        power_mod(a, e + 1, n) == (power_mod(a, e, n) * a) % n,
{
    let p = pow(a as int, e);
    assert(pow(a as int, e + 1) == a * p) by {
        reveal(pow);
    }
    lemma_mod_bound(p, n as int);
    lemma_mod_bound(a * p, n as int);
    lemma_mul_mod_noop_general(p, a as int, n as int);
    assert(a * p == p * a) by (nonlinear_arith);
}

/// Exponents add: a power of a sum is the product of the powers, reduced.
pub proof fn lemma_power_mod_adds(a: nat, e1: nat, e2: nat, n: nat)
    requires
        n > 0,
    ensures
        power_mod(a, e1 + e2, n) == (power_mod(a, e1, n) * power_mod(a, e2, n)) % n,
{
    let first = pow(a as int, e1);
    let second = pow(a as int, e2);
    lemma_pow_adds(a as int, e1, e2);
    lemma_mod_bound(first, n as int);
    lemma_mod_bound(second, n as int);
    lemma_mod_bound(first * second, n as int);
    lemma_mul_mod_noop_general(first, second, n as int);
}

/// Once a power comes back to an earlier one, the powers go round in a
/// circle: if none of them was 1 so far, none ever is.
proof fn lemma_repeat_never_reaches_one(a: nat, n: nat, i: nat, r: nat, s: nat)
    requires
        n > 0,
        1 <= i < r,
        power_mod(a, i, n) == power_mod(a, r, n),
        forall|t: nat| 1 <= t < r ==> power_mod(a, t, n) != 1,
        s >= 1,
    ensures
        exists|t: nat| 1 <= t < r && #[trigger] power_mod(a, t, n) == power_mod(a, s, n),
        power_mod(a, s, n) != 1,
    decreases s,
{
    if s < r {
        assert(power_mod(a, s, n) == power_mod(a, s, n));
    } else {
        let prev = (s - 1) as nat;
        lemma_repeat_never_reaches_one(a, n, i, r, prev);
        let t = choose|t: nat| 1 <= t < r && #[trigger] power_mod(a, t, n) == power_mod(a, prev, n);
        lemma_power_mod_step(a, prev, n);
        lemma_power_mod_step(a, t, n);
        assert(power_mod(a, s, n) == power_mod(a, t + 1, n));
        if t + 1 < r {
            assert(power_mod(a, (t + 1) as nat, n) == power_mod(a, s, n));
        } else {
            assert(power_mod(a, i, n) == power_mod(a, s, n));
        }
    }
}

/// `base` to the power `exp` modulo `modulus`, by repeated squaring.
pub fn mod_pow(base: u64, exp: u64, modulus: u64) -> (r: u64)
    requires
        modulus > 0,
    ensures
        r == power_mod(base as nat, exp as nat, modulus as nat),
{
    let m: u128 = modulus as u128;
    let mut result: u64 = (1u128 % m) as u64;
    let mut square: u64 = (base as u128 % m) as u64;
    let mut left: u64 = exp;
    proof {
        let p = power_mod(base as nat, exp as nat, modulus as nat);
        vstd::arithmetic::power::lemma_pow_mod_noop(base as int, exp as nat, modulus as int);
        assert(power_mod(square as nat, exp as nat, modulus as nat) == p);
        lemma_power_mod_bound(base as nat, exp as nat, modulus as nat);
        if modulus > 1 {
            lemma_small_mod(1, modulus as nat);
            assert(result * p == p) by (nonlinear_arith)
                requires
                    result == 1,
            ;
            lemma_small_mod(p, modulus as nat);
        } else {
            assert(result * p == 0) by (nonlinear_arith)
                requires
                    result == 0,
            ;
        }
    }
    while left > 0
        invariant
            modulus > 0,
            m == modulus,
            result < modulus,
            square < modulus,
            power_mod(base as nat, exp as nat, modulus as nat) == (result * power_mod(
                square as nat,
                left as nat,
                modulus as nat,
            )) % (modulus as int),
        decreases left,
    {
        let ghost old_result = result;
        let ghost old_square = square;
        let ghost old_left = left;
        let half: u64 = left / 2;
        if left % 2 == 1 {
            assert((result as u128) * (square as u128) <= u64::MAX * u64::MAX) by (nonlinear_arith)
                requires
                    result <= u64::MAX,
                    square <= u64::MAX,
            ;
            result = ((result as u128) * (square as u128) % m) as u64;
        }
        assert((square as u128) * (square as u128) <= u64::MAX * u64::MAX) by (nonlinear_arith)
            requires
                square <= u64::MAX,
        ;
        square = ((square as u128) * (square as u128) % m) as u64;
        left = half;
        proof {
            lemma_square_step(
                old_result as nat,
                old_square as nat,
                old_left as nat,
                modulus as nat,
            );
        }
    }
    proof {
        lemma_pow0(square as int);
        let one = power_mod(square as nat, 0, modulus as nat);
        if modulus > 1 {
            lemma_small_mod(1, modulus as nat);
            assert(result * one == result) by (nonlinear_arith)
                requires
                    one == 1,
            ;
            lemma_small_mod(result as nat, modulus as nat);
        } else {
            assert(result * one == 0) by (nonlinear_arith)
                requires
                    result == 0,
            ;
        }
    }
    result
}

/// Factors may be replaced by congruent ones before a product is reduced.
proof fn lemma_product_congruence(x: int, x2: int, y: int, y2: int, n: int)
    requires
        n > 0,
        x % n == x2 % n,
        y % n == y2 % n,
    ensures
        (x * y) % n == (x2 * y2) % n,
{
    lemma_mul_mod_noop_general(x, y, n);
    lemma_mul_mod_noop_general(x2, y2, n);
}

/// One round of repeated squaring keeps `result * square^left` the same
/// modulo `n`.
proof fn lemma_square_step(result: nat, square: nat, left: nat, n: nat)
    requires
        n > 0,
        left > 0,
    ensures
        (result * power_mod(square, left, n)) % n == ((if left % 2 == 1 {
            (result * square) % n
        } else {
            result
        }) * power_mod((square * square) % n, left / 2, n)) % n,
{
    let m = n as int;
    let r = result as int;
    let q = square as int;
    let half = left / 2;
    let tail = pow(q, 2 * half);
    assert(pow(((q * q) % m), half) % m == tail % m) by {
        vstd::arithmetic::power::lemma_pow_mod_noop(q * q, half, m);
        vstd::arithmetic::power::lemma_pow_multiplies(q, 2, half);
        vstd::arithmetic::power::lemma_square_is_pow2(q);
    }
    lemma_mod_bound(q * q, m);
    lemma_mod_bound(tail, m);
    vstd::arithmetic::div_mod::lemma_mod_twice(tail, m);
    if left % 2 == 1 {
        assert(left == 2 * half + 1);
        assert(pow(q, left) == q * tail) by {
            lemma_pow_adds(q, 1, 2 * half);
            vstd::arithmetic::power::lemma_pow1(q);
        }
        lemma_mod_bound(q * tail, m);
        lemma_mod_bound(r * q, m);
        vstd::arithmetic::div_mod::lemma_mod_twice(q * tail, m);
        vstd::arithmetic::div_mod::lemma_mod_twice(r * q, m);
        lemma_product_congruence(r, r, (q * tail) % m, q * tail, m);
        lemma_product_congruence((r * q) % m, r * q, tail % m, tail, m);
        assert(r * (q * tail) == (r * q) * tail) by (nonlinear_arith);
    } else {
        assert(left == 2 * half);
    }
}

/// The multiplicative order of `a` modulo `n`: the least exponent `k >= 1`
/// with `a^k` equal to 1 modulo `n`.
///
/// The answer is `Some(k)` exactly when `a` and `n` are coprime and `n` is at
/// least 2; the order is then at most `n`. Otherwise no exponent from 1 to
/// `n` takes `a` to 1, and the answer is `None`.
pub fn find_order(a: u64, n: u64) -> (r: Option<u64>)
    requires
        n > 0 || a != 1,
    ensures
        match r {
            Some(k) => gcd_of(a as nat, n as nat) == 1 && k <= n && is_order(
                a as nat,
                n as nat,
                k as nat,
            ),
            None => gcd_of(a as nat, n as nat) != 1 || no_unit_power_within(
                a as nat,
                n as nat,
                n as nat,
            ),
        },
        match r {
            Some(k) => order_of(a as nat, n as nat) == Some(k as nat),
            None => order_of(a as nat, n as nat).is_none(),
        },
        r.is_some() <==> gcd_of(a as nat, n as nat) == 1 && n >= 2,
{
    broadcast use vstd::std_specs::hash::group_hash_axioms;

    if gcd(a, n) != 1 {
        return None;
    }
    assert(n > 0);
    proof {
        if n >= 2 {
            let k = lemma_coprime_has_order(a as nat, n as nat);
            assert(!no_unit_power_within(a as nat, n as nat, n as nat));
        }
    }
    let mut r: u64 = 1;
    let mut x: u64 = a % n;
    let mut seen: HashSet<u64> = HashSet::new();
    proof {
        vstd::arithmetic::power::lemma_pow1(a as int);
    }
    while x != 1
        invariant
            n > 0,
            n >= 2 ==> !no_unit_power_within(a as nat, n as nat, n as nat),
            1 <= r <= n,
            x == power_mod(a as nat, r as nat, n as nat),
            forall|s: nat| 1 <= s < r ==> power_mod(a as nat, s, n as nat) != 1,
            forall|v: u64| seen@.contains(v) <==> reached(a as nat, n as nat, r as nat, v as nat),
        decreases n - r,
    {
        if seen.contains(&x) {
            proof {
                let i = choose|s: nat|
                    1 <= s < r && #[trigger] power_mod(a as nat, s, n as nat) == x as nat;
                assert forall|s: nat| 1 <= s <= n implies power_mod(a as nat, s, n as nat)
                    != 1 by {
                    lemma_repeat_never_reaches_one(a as nat, n as nat, i, r as nat, s);
                }
            }
            return None;
        }
        let ghost before = seen@;
        seen.insert(x);
        if r >= n {
            return None;
        }
        proof {
            lemma_power_mod_step(a as nat, r as nat, n as nat);
            assert forall|v: u64| seen@.contains(v) <==> reached(
                a as nat,
                n as nat,
                (r + 1) as nat,
                v as nat,
            ) by {
                if before.contains(v) {
                    let s = choose|s: nat|
                        1 <= s < r && #[trigger] power_mod(a as nat, s, n as nat) == v as nat;
                    assert(1 <= s < r + 1);
                }
                if v == x {
                    assert(power_mod(a as nat, r as nat, n as nat) == v as nat);
                }
                if reached(a as nat, n as nat, (r + 1) as nat, v as nat) {
                    let s = choose|s: nat|
                        1 <= s < r + 1 && #[trigger] power_mod(a as nat, s, n as nat) == v as nat;
                    if s < r {
                        assert(reached(a as nat, n as nat, r as nat, v as nat));
                    }
                }
            }
        }
        assert((x as u128) * (a as u128) <= u64::MAX * u64::MAX) by (nonlinear_arith)
            requires
                x <= u64::MAX,
                a <= u64::MAX,
        ;
        x = ((x as u128) * (a as u128) % (n as u128)) as u64;
        r = r + 1;
    }
    proof {
        lemma_no_order_modulo_one(a as nat, r as nat);
    }
    Some(r)
}

} // verus!
