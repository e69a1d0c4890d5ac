//! The phases of a discrete Fourier transform, as exponents of a root of
//! unity.
//!
//! The entry of the `dim`-point transform at row `j` and column `k` is a fixed
//! scale times `w^(j*k)` in the forward direction and `w^(-j*k)` in the inverse
//! direction, where `w` is the primitive root of unity `exp(2*pi*i / dim)`.
//! Since `w^dim` is 1, only the exponent modulo `dim` matters, and that is an
//! integer that can be computed and reasoned about exactly.

use vstd::arithmetic::div_mod::{
    lemma_add_mod_noop, lemma_fundamental_div_mod, lemma_mod_bound, lemma_mod_multiples_vanish,
    lemma_mod_self_0, lemma_small_mod,
};
use vstd::prelude::*;

verus! {

/// The sign convention of a transform: `Forward` turns by `+2*pi*j*k / dim`,
/// `Inverse` by `-2*pi*j*k / dim`.
#[derive(Clone, Copy, Debug, PartialEq, Eq, Structural)]
pub enum Direction {
    Forward,
    Inverse,
}

impl Direction {
    /// `+1` for `Forward`, `-1` for `Inverse`.
    pub open spec fn sign(self) -> int {
        match self {
            Direction::Forward => 1,
            Direction::Inverse => -1,
        }
    }

    /// The other direction.
    pub open spec fn spec_reversed(self) -> Direction {
        match self {
            Direction::Forward => Direction::Inverse,
            Direction::Inverse => Direction::Forward,
        }
    }

    /// The other direction.
    #[verifier::when_used_as_spec(spec_reversed)]
    pub fn reversed(self) -> (r: Direction)
        ensures
            r == self.spec_reversed(),
    {
        match self {
            Direction::Forward => Direction::Inverse,
            Direction::Inverse => Direction::Forward,
        }
    }
}

/// The exponent of the root of unity at row `row` and column `col` of the
/// `dim`-point transform: `sign * row * col`, reduced into `0..dim`.
pub open spec fn phase_of(direction: Direction, row: nat, col: nat, dim: nat) -> nat
    recommends
        dim > 0,
{
    ((direction.sign() * (row * col)) % (dim as int)) as nat
}

/// The exponent of the root of unity at one entry of the `dim`-point
/// transform, for any row and column that fit the machine word.
pub fn phase_exponent(direction: Direction, row: usize, col: usize, dim: usize) -> (e: usize)
    requires
        dim > 0,
    ensures
        e == phase_of(direction, row as nat, col as nat, dim as nat),
        e < dim,
{
    assert((row as u128) * (col as u128) <= u64::MAX * u64::MAX) by (nonlinear_arith)
        requires
            row <= u64::MAX,
            col <= u64::MAX,
    ;
    let product: u128 = (row as u128) * (col as u128);
    let turn: usize = (product % (dim as u128)) as usize;
    proof {
        lemma_mod_bound(product as int, dim as int);
        lemma_negated_mod(product as int, dim as int);
    }
    match direction {
        Direction::Forward => turn,
        Direction::Inverse => if turn == 0 {
            0
        } else {
            dim - turn
        },
    }
}

/// The remainder of `-x` from the remainder of `x`.
pub proof fn lemma_negated_mod(x: int, n: int)
    requires
        n > 0,
    ensures
        (-1 * x) % n == if x % n == 0 {
            0
        } else {
            n - x % n
        },
        (1 * x) % n == x % n,
{
    lemma_mod_bound(x, n);
    lemma_fundamental_div_mod(x, n);
    let q = x / n;
    let r = x % n;
    assert(-1 * x == n * (-q) + (-r)) by (nonlinear_arith)
        requires
            x == n * q + r,
    ;
    lemma_mod_multiples_vanish(-q, -r, n);
    if r == 0 {
        lemma_small_mod(0, n as nat);
    } else {
        lemma_mod_multiples_vanish(1, -r, n);
        lemma_small_mod((n - r) as nat, n as nat);
    }
}

/// The transform matrix is symmetric: the entries at `(row, col)` and at
/// `(col, row)` have the same phase.
pub proof fn lemma_phase_symmetric(direction: Direction, row: nat, col: nat, dim: nat)
    ensures
        phase_of(direction, row, col, dim) == phase_of(direction, col, row, dim),
{
    assert(row * col == col * row) by (nonlinear_arith);
}

/// The two directions are conjugate transposes of each other: the phase at
/// `(row, col)` in one direction and the phase at `(col, row)` in the other
/// add up to a full turn, so the two entries are complex conjugates.
pub proof fn lemma_reversed_phase_is_conjugate(direction: Direction, row: nat, col: nat, dim: nat)
    requires
        dim > 0,
    ensures
        (phase_of(direction, row, col, dim) + phase_of(direction.reversed(), col, row, dim)) % dim
            == 0,
        phase_of(direction.reversed(), col, row, dim) == if phase_of(direction, row, col, dim)
            == 0 {
            0
        } else {
            dim - phase_of(direction, row, col, dim)
        },
{
    let x = (row * col) as int;
    let n = dim as int;
    assert(row * col == col * row) by (nonlinear_arith);
    lemma_negated_mod(x, n);
    lemma_mod_bound(x, n);
    lemma_mod_self_0(n);
    lemma_small_mod(0, dim);
}

/// Along a row the phases add: the phase at column `k1 + k2` is the sum of the
/// phases at `k1` and at `k2`, reduced. So the entries of a row are the
/// successive powers of one root of unity.
pub proof fn lemma_phase_adds_along_row(direction: Direction, row: nat, k1: nat, k2: nat, dim: nat)
    requires
        dim > 0,
    ensures
        phase_of(direction, row, k1 + k2, dim) == (phase_of(direction, row, k1, dim) + phase_of(
            direction,
            row,
            k2,
            dim,
        )) % dim,
{
    let s = direction.sign();
    let n = dim as int;
    assert(s * (row * (k1 + k2)) == s * (row * k1) + s * (row * k2)) by (nonlinear_arith);
    lemma_add_mod_noop(s * (row * k1), s * (row * k2), n);
}

/// The first row and the first column hold the phase 0, and in the forward
/// direction the column of index 1 holds each row's own number.
pub proof fn lemma_phase_of_first_lines(direction: Direction, k: nat, dim: nat)
    requires
        dim > 0,
    ensures
        phase_of(direction, 0, k, dim) == 0,
        phase_of(direction, k, 0, dim) == 0,
        k < dim ==> phase_of(Direction::Forward, k, 1, dim) == k,
{
    assert(0 * k == 0 && k * 0 == 0 && k * 1 == k) by (nonlinear_arith);
    lemma_small_mod(0, dim);
    if k < dim {
        lemma_small_mod(k, dim);
    }
}

} // verus!
