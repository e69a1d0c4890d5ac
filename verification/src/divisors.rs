//! Divisibility and the greatest common divisor.

use vstd::prelude::*;

verus! {

/// `d` divides `x`: `x` is a multiple of `d`. Zero divides only zero.
pub open spec fn divides(d: nat, x: nat) -> bool {
    if d == 0 {
        x == 0
    } else {
        x % d == 0
    }
}

/// `x` is `d` times some natural number.
spec fn multiple_of(d: nat, x: nat) -> bool {
    exists|k: nat| x == #[trigger] (d * k)
}

/// Divisibility by remainder and by an explicit factor are the same thing.
proof fn lemma_divides_is_multiple(d: nat, x: nat)
    ensures
        divides(d, x) <==> multiple_of(d, x),
{
    if d == 0 {
        if x == 0 {
            assert(x == d * 0);
        }
        if multiple_of(d, x) {
            let k = choose|k: nat| x == #[trigger] (d * k);
            assert(d * k == 0) by (nonlinear_arith)
                requires
                    d == 0,
            ;
        }
    } else {
        if x % d == 0 {
            vstd::arithmetic::div_mod::lemma_fundamental_div_mod(x as int, d as int);
            assert(x == d * (x / d));
        }
        if multiple_of(d, x) {
            let k = choose|k: nat| x == #[trigger] (d * k);
            vstd::arithmetic::div_mod::lemma_mod_multiples_basic(k as int, d as int);
            assert(d * k == k * d) by (nonlinear_arith);
        }
    }
}

/// The greatest common divisor as Euclid computes it.
pub open spec fn gcd_of(a: nat, b: nat) -> nat
    decreases b,
{
    if b == 0 {
        a
    } else {
        gcd_of(b, a % b)
    }
}

/// `g` is a common divisor of `a` and `b` that every common divisor divides.
pub open spec fn is_greatest_common_divisor(g: nat, a: nat, b: nat) -> bool {
    &&& divides(g, a)
    &&& divides(g, b)
    &&& forall|d: nat| divides(d, a) && divides(d, b) ==> divides(d, g)
}

/// A divisor of `b` and of `a % b` divides `a`.
proof fn lemma_divides_from_remainder(d: nat, a: nat, b: nat)
    requires
        b > 0,
        divides(d, b),
        divides(d, a % b),
    ensures
        divides(d, a),
{
    lemma_divides_is_multiple(d, b);
    lemma_divides_is_multiple(d, a % b);
    lemma_divides_is_multiple(d, a);
    let kb = choose|k: nat| b == #[trigger] (d * k);
    let kr = choose|k: nat| a % b == #[trigger] (d * k);
    let q = a / b;
    assert(a == b * q + a % b) by {
        vstd::arithmetic::div_mod::lemma_fundamental_div_mod(a as int, b as int);
    }
    assert(b * q == d * (kb * q)) by (nonlinear_arith)
        requires
            b == d * kb,
    ;
    assert(d * (kb * q) + d * kr == d * (kb * q + kr)) by (nonlinear_arith);
    assert(a == d * (kb * q + kr));
}

/// A common divisor of `a` and `b` divides `a % b`.
proof fn lemma_divides_remainder(d: nat, a: nat, b: nat)
    requires
        b > 0,
        divides(d, a),
        divides(d, b),
    ensures
        divides(d, a % b),
{
    lemma_divides_is_multiple(d, a);
    lemma_divides_is_multiple(d, b);
    lemma_divides_is_multiple(d, a % b);
    let ka = choose|k: nat| a == #[trigger] (d * k);
    let kb = choose|k: nat| b == #[trigger] (d * k);
    let q = a / b;
    assert(a == b * q + a % b) by {
        vstd::arithmetic::div_mod::lemma_fundamental_div_mod(a as int, b as int);
    }
    assert(d > 0) by {
        if d == 0 {
            assert(d * kb == 0) by (nonlinear_arith)
                requires
                    d == 0,
            ;
        }
    }
    assert(b * q == d * (kb * q)) by (nonlinear_arith)
        requires
            b == d * kb,
    ;
    assert(d * ka - d * (kb * q) == d * (ka - kb * q)) by (nonlinear_arith);
    assert(ka - kb * q >= 0) by (nonlinear_arith)
        requires
            a % b == d * (ka - kb * q),
            a % b >= 0,
            d > 0,
    ;
    let k = (ka - kb * q) as nat;
    assert(a % b == d * k);
}

/// Euclid's result is the greatest common divisor: it divides both numbers,
/// and every number that divides both divides it.
pub proof fn lemma_gcd_is_greatest(a: nat, b: nat)
    ensures
        is_greatest_common_divisor(gcd_of(a, b), a, b),
    decreases b,
{
    let g = gcd_of(a, b);
    if b == 0 {
        if a != 0 {
            vstd::arithmetic::div_mod::lemma_mod_self_0(a as int);
        }
    } else {
        lemma_gcd_is_greatest(b, a % b);
        lemma_divides_from_remainder(g, a, b);
        assert forall|d: nat| divides(d, a) && divides(d, b) implies divides(d, g) by {
            lemma_divides_remainder(d, a, b);
        }
    }
}

/// The greatest common divisor of `a` and `b`, by Euclid's algorithm.
pub fn gcd(a: u64, b: u64) -> (g: u64)
    ensures
        g == gcd_of(a as nat, b as nat),
        is_greatest_common_divisor(g as nat, a as nat, b as nat),
    decreases b,
{
    proof {
        lemma_gcd_is_greatest(a as nat, b as nat);
    }
    if b == 0 {
        a
    } else {
        gcd(b, a % b)
    }
}

} // verus!
