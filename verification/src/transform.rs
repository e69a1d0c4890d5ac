//! The transform engine: building an `N x N` Fourier matrix, applying a matrix
//! to a vector, inverting by conjugate transpose, and picking out the
//! amplitudes that matter.
//!
//! The engine is generic in the scalar type `T`. It decides every index,
//! dimension and error itself and leaves the arithmetic on scalars to the
//! functions it is handed: `root` for a scaled root of unity, `mul_add` for
//! `acc + m * x`, `conj` for the complex conjugate, and `exceeds` for the test
//! of an amplitude against a threshold. Each contract says which calls of
//! those functions produced which entry of the result.

use crate::matrix::{grid_of, is_square, EngineError, Matrix};
use crate::phase::{phase_exponent, phase_of, Direction};
use vstd::arithmetic::power2::{lemma2_to64, lemma_pow2_strictly_increases, lemma_pow2_unfold, pow2};
use vstd::prelude::*;

verus! {

/// The largest supported number of qubits is `usize::BITS - 1`, that is 63 on
/// a 64-bit machine and 31 on a 32-bit one: the dimension `2^n_bits` must fit a
/// `usize`. Whether the machine has the memory for a vector or a matrix of
/// that dimension is another matter, and not decided here.
pub open spec fn bits_in_range(n_bits: usize) -> bool {
    n_bits < usize::BITS
}

/// The dimension `2^n_bits` of the state space of `n_bits` qubits.
///
/// Fails with `OutOfRange` exactly when `2^n_bits` does not fit a `usize`,
/// that is when `n_bits` is `usize::BITS` or more.
pub fn dimension(n_bits: usize) -> (r: Result<usize, EngineError>)
    ensures
        match r {
            Ok(d) => bits_in_range(n_bits) && d == pow2(n_bits as nat),
            Err(e) => e == EngineError::OutOfRange && !bits_in_range(n_bits),
        },
{
    if n_bits >= usize::BITS as usize {
        return Err(EngineError::OutOfRange);
    }
    let mut d: usize = 1;
    let mut i: usize = 0;
    proof {
        lemma2_to64();
    }
    while i < n_bits
        invariant
            i <= n_bits < usize::BITS,
            d == pow2(i as nat),
        decreases n_bits - i,
    {
        proof {
            lemma_pow2_unfold((i + 1) as nat);
            lemma_pow2_strictly_increases((i + 1) as nat, usize::BITS as nat);
            lemma2_to64();
        }
        d = d * 2;
        i = i + 1;
    }
    Ok(d)
}

/// The basis vector of `n_bits` qubits for the state `index`: `one` at
/// position `index` and `zero` everywhere else, `2^n_bits` entries in all.
///
/// An `index` beyond the last position is not an error: the vector is then
/// `zero` everywhere. Fails with `OutOfRange` exactly when `dimension` does.
pub fn basis_vector<T: Copy>(n_bits: usize, index: usize, zero: T, one: T) -> (r: Result<
    Vec<T>,
    EngineError,
>)
    ensures
        match r {
            Ok(v) => {
                &&& bits_in_range(n_bits)
                &&& v@.len() == pow2(n_bits as nat)
                &&& forall|i: int|
                    0 <= i < v@.len() ==> #[trigger] v@[i] == if i == index {
                        one
                    } else {
                        zero
                    }
            },
            Err(e) => e == EngineError::OutOfRange && !bits_in_range(n_bits),
        },
{
    let dim = match dimension(n_bits) {
        Ok(d) => d,
        Err(e) => {
            return Err(e);
        },
    };
    let mut state: Vec<T> = Vec::new();
    let mut i: usize = 0;
    while i < dim
        invariant
            i <= dim,
            state@.len() == i,
            forall|j: int|
                0 <= j < i ==> #[trigger] state@[j] == if j == index {
                    one
                } else {
                    zero
                },
        decreases dim - i,
    {
        if i == index {
            state.push(one);
        } else {
            state.push(zero);
        }
        i = i + 1;
    }
    Ok(state)
}

/// `row` holds, column by column, what `root` returned for the phases of row
/// `j` of the `dim`-point transform.
pub open spec fn is_phase_row<T, R: Fn(usize, usize) -> T>(
    row: Seq<T>,
    direction: Direction,
    j: nat,
    dim: nat,
    root: R,
) -> bool {
    &&& row.len() == dim
    &&& forall|k: int|
        0 <= k < dim ==> call_ensures(
            root,
            (phase_of(direction, j, k as nat, dim) as usize, dim as usize),
            #[trigger] row[k],
        )
}

/// `grid` is the `dim`-point transform in the given direction, with every
/// entry made by `root` from the phase of its row and column.
pub open spec fn is_transform_grid<T, R: Fn(usize, usize) -> T>(
    grid: Seq<Seq<T>>,
    direction: Direction,
    dim: nat,
    root: R,
) -> bool {
    &&& grid.len() == dim
    &&& forall|j: int| 0 <= j < dim ==> is_phase_row(#[trigger] grid[j], direction, j as nat, dim, root)
}

/// The `dim`-point transform matrix in the given direction, for any `dim`.
///
/// `root(e, dim)` is asked for the scalar that stands for the root of unity
/// `exp(2*pi*i * e / dim)`, scaled as the caller's convention wants it; the
/// entry at row `j` and column `k` is what it returned for the exponent
/// `phase_of(direction, j, k, dim)`.
pub fn transform_matrix<T, R: Fn(usize, usize) -> T>(dim: usize, direction: Direction, root: R) -> (m:
    Matrix<T>)
    requires
        forall|e: usize| e < dim ==> call_requires(root, (e, dim)),
    ensures
        is_transform_grid(m@, direction, dim as nat, root),
{
    let mut rows: Vec<Vec<T>> = Vec::new();
    let mut j: usize = 0;
    while j < dim
        invariant
            j <= dim,
            rows@.len() == j,
            forall|e: usize| e < dim ==> call_requires(root, (e, dim)),
            forall|i: int|
                0 <= i < j ==> is_phase_row(
                    (#[trigger] rows@[i])@,
                    direction,
                    i as nat,
                    dim as nat,
                    root,
                ),
        decreases dim - j,
    {
        let mut row: Vec<T> = Vec::new();
        let mut k: usize = 0;
        while k < dim
            invariant
                j < dim,
                k <= dim,
                row@.len() == k,
                forall|e: usize| e < dim ==> call_requires(root, (e, dim)),
                forall|c: int|
                    0 <= c < k ==> call_ensures(
                        root,
                        (phase_of(direction, j as nat, c as nat, dim as nat) as usize, dim),
                        #[trigger] row@[c],
                    ),
            decreases dim - k,
        {
            let e = phase_exponent(direction, j, k, dim);
            row.push(root(e, dim));
            k = k + 1;
        }
        rows.push(row);
        j = j + 1;
    }
    proof {
        assert forall|i: int| 0 <= i < dim implies (#[trigger] grid_of(rows@)[i]).len()
            == dim by {
            assert(is_phase_row(rows@[i]@, direction, i as nat, dim as nat, root));
        }
        assert forall|i: int| 0 <= i < dim implies is_phase_row(
            #[trigger] grid_of(rows@)[i],
            direction,
            i as nat,
            dim as nat,
            root,
        ) by {
            assert(is_phase_row(rows@[i]@, direction, i as nat, dim as nat, root));
        }
    }
    Matrix::from_square_rows(rows)
}

/// The transform matrix for `n_bits` qubits: the `2^n_bits`-point transform
/// in the given direction, made by `transform_matrix`.
///
/// Fails with `OutOfRange` exactly when `dimension` does.
pub fn build_transform<T, R: Fn(usize, usize) -> T>(
    n_bits: usize,
    direction: Direction,
    root: R,
) -> (r: Result<Matrix<T>, EngineError>)
    requires
        forall|e: usize, d: usize| e < d ==> call_requires(root, (e, d)),
    ensures
        match r {
            Ok(m) => bits_in_range(n_bits) && is_transform_grid(
                m@,
                direction,
                pow2(n_bits as nat),
                root,
            ),
            Err(e) => e == EngineError::OutOfRange && !bits_in_range(n_bits),
        },
{
    match dimension(n_bits) {
        Ok(dim) => Ok(transform_matrix(dim, direction, root)),
        Err(e) => Err(e),
    }
}

/// `sums` are the running totals of the dot product of `coeffs` and `xs`:
/// they start at `zero`, and each next one is what `mul_add` returned for the
/// total so far, the next coefficient and the next entry of `xs`.
pub open spec fn is_running_sum<T, F: Fn(T, T, T) -> T>(
    sums: Seq<T>,
    mul_add: F,
    zero: T,
    coeffs: Seq<T>,
    xs: Seq<T>,
) -> bool {
    &&& coeffs.len() == xs.len()
    &&& sums.len() == xs.len() + 1
    &&& sums[0] == zero
    &&& forall|c: int|
        0 <= c < xs.len() ==> call_ensures(
            mul_add,
            (sums[c], coeffs[c], #[trigger] xs[c]),
            sums[c + 1],
        )
}

/// `total` is the dot product of `coeffs` and `xs`, summed from the first
/// column to the last with `mul_add`, starting from `zero`.
pub open spec fn is_dot_product<T, F: Fn(T, T, T) -> T>(
    total: T,
    mul_add: F,
    zero: T,
    coeffs: Seq<T>,
    xs: Seq<T>,
) -> bool {
    exists|sums: Seq<T>| #[trigger]
        is_running_sum(sums, mul_add, zero, coeffs, xs) && sums.last() == total
}

/// The dot product of one row of coefficients with a vector of the same
/// length: `zero`, then `mul_add(acc, coeffs[c], xs[c])` for each column in
/// order.
fn dot_product<T: Copy, F: Fn(T, T, T) -> T>(coeffs: &Vec<T>, xs: &Vec<T>, zero: T, mul_add: &F) -> (total:
    T)
    requires
        coeffs@.len() == xs@.len(),
        forall|acc: T, m: T, x: T| call_requires(*mul_add, (acc, m, x)),
    ensures
        is_dot_product(total, *mul_add, zero, coeffs@, xs@),
{
    let n = xs.len();
    let mut acc = zero;
    let ghost mut sums: Seq<T> = seq![zero];
    let mut c: usize = 0;
    while c < n
        invariant
            n == xs@.len(),
            coeffs@.len() == n,
            c <= n,
            sums.len() == c + 1,
            sums[0] == zero,
            sums.last() == acc,
            forall|acc: T, m: T, x: T| call_requires(*mul_add, (acc, m, x)),
            forall|b: int|
                0 <= b < c ==> call_ensures(
                    *mul_add,
                    (sums[b], coeffs@[b], #[trigger] xs@[b]),
                    sums[b + 1],
                ),
        decreases n - c,
    {
        let next = mul_add(acc, coeffs[c], xs[c]);
        proof {
            sums = sums.push(next);
        }
        acc = next;
        c = c + 1;
    }
    proof {
        assert(is_running_sum(sums, *mul_add, zero, coeffs@, xs@));
    }
    acc
}

/// The matrix-vector product `matrix * input`.
///
/// Entry `row` of the result is the dot product of row `row` of the matrix
/// with `input`, summed column by column with `mul_add(acc, m, x)`, which
/// stands for `acc + m * x`, starting from `zero`. Fails with
/// `DimensionMismatch` exactly when `input` is not as long as the matrix is
/// wide; nothing is padded or cut.
pub fn apply<T: Copy, F: Fn(T, T, T) -> T>(
    matrix: &Matrix<T>,
    input: &Vec<T>,
    zero: T,
    mul_add: F,
) -> (r: Result<Vec<T>, EngineError>)
    requires
        forall|acc: T, m: T, x: T| call_requires(mul_add, (acc, m, x)),
    ensures
        match r {
            Ok(out) => {
                &&& matrix@.len() == input@.len()
                &&& out@.len() == input@.len()
                &&& forall|row: int|
                    0 <= row < out@.len() ==> is_dot_product(
                        #[trigger] out@[row],
                        mul_add,
                        zero,
                        matrix@[row],
                        input@,
                    )
            },
            Err(e) => e == EngineError::DimensionMismatch && matrix@.len() != input@.len(),
        },
{
    let rows = matrix.rows();
    let n = rows.len();
    if input.len() != n {
        return Err(EngineError::DimensionMismatch);
    }
    let mut out: Vec<T> = Vec::new();
    let mut i: usize = 0;
    while i < n
        invariant
            n == input@.len(),
            n == rows@.len(),
            grid_of(rows@) == matrix@,
            is_square(matrix@),
            i <= n,
            out@.len() == i,
            forall|acc: T, m: T, x: T| call_requires(mul_add, (acc, m, x)),
            forall|row: int|
                0 <= row < i ==> is_dot_product(
                    #[trigger] out@[row],
                    mul_add,
                    zero,
                    matrix@[row],
                    input@,
                ),
        decreases n - i,
    {
        assert(matrix@[i as int] == rows@[i as int]@);
        let total = dot_product(&rows[i], input, zero, &mul_add);
        out.push(total);
        i = i + 1;
    }
    Ok(out)
}

/// `inverse` is the conjugate transpose of `grid`: its entry at row `i` and
/// column `j` is what `conj` returned for the entry of `grid` at row `j` and
/// column `i`.
pub open spec fn is_conjugate_transpose<T, C: Fn(T) -> T>(
    inverse: Seq<Seq<T>>,
    grid: Seq<Seq<T>>,
    conj: C,
) -> bool {
    &&& inverse.len() == grid.len()
    &&& is_square(inverse)
    &&& forall|i: int, j: int|
        0 <= i < grid.len() && 0 <= j < grid.len() ==> call_ensures(
            conj,
            (grid[j][i],),
            #[trigger] inverse[i][j],
        )
}

/// The conjugate transpose of a matrix, which for a unitary matrix is its
/// inverse. `conj` is asked for the conjugate of each entry.
pub fn invert<T: Copy, C: Fn(T) -> T>(matrix: &Matrix<T>, conj: C) -> (inverse: Matrix<T>)
    requires
        forall|t: T| call_requires(conj, (t,)),
    ensures
        is_conjugate_transpose(inverse@, matrix@, conj),
{
    let source = matrix.rows();
    let n = source.len();
    let mut rows: Vec<Vec<T>> = Vec::new();
    let mut i: usize = 0;
    while i < n
        invariant
            n == source@.len(),
            grid_of(source@) == matrix@,
            is_square(matrix@),
            i <= n,
            rows@.len() == i,
            forall|t: T| call_requires(conj, (t,)),
            forall|a: int| 0 <= a < i ==> (#[trigger] rows@[a])@.len() == n,
            forall|a: int, b: int|
                0 <= a < i && 0 <= b < n ==> call_ensures(
                    conj,
                    (matrix@[b][a],),
                    #[trigger] rows@[a]@[b],
                ),
        decreases n - i,
    {
        let mut row: Vec<T> = Vec::new();
        let mut j: usize = 0;
        while j < n
            invariant
                n == source@.len(),
                grid_of(source@) == matrix@,
                is_square(matrix@),
                i < n,
                j <= n,
                row@.len() == j,
                forall|t: T| call_requires(conj, (t,)),
                forall|b: int|
                    0 <= b < j ==> call_ensures(conj, (matrix@[b][i as int],), #[trigger] row@[b]),
            decreases n - j,
        {
            assert(matrix@[j as int] == source@[j as int]@);
            assert(matrix@[j as int].len() == n);
            row.push(conj(source[j][i]));
            j = j + 1;
        }
        rows.push(row);
        i = i + 1;
    }
    proof {
        assert forall|a: int| 0 <= a < n implies (#[trigger] grid_of(rows@)[a]).len() == n by {
            assert(rows@[a]@.len() == n);
        }
        assert forall|a: int, b: int| 0 <= a < n && 0 <= b < n implies call_ensures(
            conj,
            (matrix@[b][a],),
            #[trigger] grid_of(rows@)[a][b],
        ) by {
            assert(call_ensures(conj, (matrix@[b][a],), rows@[a]@[b]));
        }
    }
    Matrix::from_square_rows(rows)
}

/// `keep` records, entry by entry, what `exceeds` answered for `state`.
pub open spec fn is_verdict<T, P: Fn(T) -> bool>(keep: Seq<bool>, state: Seq<T>, exceeds: P) -> bool {
    &&& keep.len() == state.len()
    &&& forall|i: int|
        0 <= i < state.len() ==> call_ensures(exceeds, (#[trigger] state[i],), keep[i])
}

/// The entries among the first `upto` of `state` that `keep` marks, each with
/// its index, in ascending order of index.
pub open spec fn selected<T>(state: Seq<T>, keep: Seq<bool>, upto: nat) -> Seq<(usize, T)>
    recommends
        upto <= state.len(),
        keep.len() == state.len(),
    decreases upto,
{
    if upto == 0 {
        Seq::empty()
    } else {
        let rest = selected(state, keep, (upto - 1) as nat);
        if keep[upto - 1] {
            rest.push(((upto - 1) as usize, state[upto - 1]))
        } else {
            rest
        }
    }
}

/// The amplitudes that stand out: every pair of an index and the amplitude
/// there for which `exceeds` answered `true`, in ascending order of index.
///
/// `exceeds(a)` stands for the test of the squared magnitude of `a` against
/// the caller's threshold. It is asked once for each entry, first to last.
pub fn amplitudes_above_threshold<T: Copy, P: Fn(T) -> bool>(state: &Vec<T>, exceeds: P) -> (out:
    Vec<(usize, T)>)
    requires
        forall|t: T| call_requires(exceeds, (t,)),
    ensures
        exists|keep: Seq<bool>| #[trigger]
            is_verdict(keep, state@, exceeds) && out@ == selected(state@, keep, state@.len()),
{
    let n = state.len();
    let mut out: Vec<(usize, T)> = Vec::new();
    let ghost mut keep: Seq<bool> = Seq::empty();
    let mut i: usize = 0;
    while i < n
        invariant
            n == state@.len(),
            i <= n,
            keep.len() == i,
            forall|t: T| call_requires(exceeds, (t,)),
            forall|j: int| 0 <= j < i ==> call_ensures(exceeds, (#[trigger] state@[j],), keep[j]),
            out@ == selected(state@, keep + Seq::new((n - i) as nat, |j: int| false), i as nat),
        decreases n - i,
    {
        let amplitude = state[i];
        let verdict = exceeds(amplitude);
        let ghost before = keep + Seq::new((n - i) as nat, |j: int| false);
        proof {
            keep = keep.push(verdict);
        }
        let ghost after = keep + Seq::new((n - i - 1) as nat, |j: int| false);
        proof {
            lemma_selected_prefix(state@, before, after, i as nat);
            assert(after[i as int] == verdict);
        }
        if verdict {
            out.push((i, amplitude));
        }
        i = i + 1;
    }
    proof {
        assert(keep + Seq::new(0nat, |j: int| false) =~= keep);
        assert(is_verdict(keep, state@, exceeds));
    }
    out
}

/// Only the marks before `upto` matter to `selected`.
proof fn lemma_selected_prefix<T>(state: Seq<T>, keep1: Seq<bool>, keep2: Seq<bool>, upto: nat)
    requires
        upto <= keep1.len(),
        upto <= keep2.len(),
        forall|i: int| 0 <= i < upto ==> keep1[i] == keep2[i],
    ensures
        selected(state, keep1, upto) == selected(state, keep2, upto),
    decreases upto,
{
    if upto > 0 {
        lemma_selected_prefix(state, keep1, keep2, (upto - 1) as nat);
    }
}

/// `total` is entry `k` of the direct-sum transform of `input`: the dot
/// product of `input` with a row of phases that `root` made for row `k`.
pub open spec fn is_direct_sum<T, R: Fn(usize, usize) -> T, F: Fn(T, T, T) -> T>(
    total: T,
    direction: Direction,
    k: nat,
    input: Seq<T>,
    zero: T,
    root: R,
    mul_add: F,
) -> bool {
    exists|row: Seq<T>| #[trigger]
        is_phase_row(row, direction, k, input.len(), root) && is_dot_product(
            total,
            mul_add,
            zero,
            row,
            input,
        )
}

/// The discrete Fourier transform of `input` by its definition, one sum of
/// `input.len()` terms for each output, with no matrix kept.
///
/// Output `k` is the sum over `t` of `root(e, n) * input[t]`, where `e` is
/// `phase_of(direction, k, t, n)` and `n` is the length of `input`, summed
/// with `mul_add` from `zero`. Any length will do, not only a power of two.
pub fn dft<T: Copy, R: Fn(usize, usize) -> T, F: Fn(T, T, T) -> T>(
    input: &Vec<T>,
    direction: Direction,
    zero: T,
    root: R,
    mul_add: F,
) -> (out: Vec<T>)
    requires
        forall|e: usize| e < input.len() ==> call_requires(root, (e, input.len())),
        forall|acc: T, m: T, x: T| call_requires(mul_add, (acc, m, x)),
    ensures
        out@.len() == input@.len(),
        forall|k: int|
            0 <= k < out@.len() ==> is_direct_sum(
                #[trigger] out@[k],
                direction,
                k as nat,
                input@,
                zero,
                root,
                mul_add,
            ),
{
    let n = input.len();
    let mut out: Vec<T> = Vec::new();
    let mut k: usize = 0;
    while k < n
        invariant
            n == input@.len(),
            k <= n,
            out@.len() == k,
            forall|e: usize| e < n ==> call_requires(root, (e, n)),
            forall|acc: T, m: T, x: T| call_requires(mul_add, (acc, m, x)),
            forall|j: int|
                0 <= j < k ==> is_direct_sum(
                    #[trigger] out@[j],
                    direction,
                    j as nat,
                    input@,
                    zero,
                    root,
                    mul_add,
                ),
        decreases n - k,
    {
        let mut sum = zero;
        let ghost mut sums: Seq<T> = seq![zero];
        let ghost mut row: Seq<T> = Seq::empty();
        let mut t: usize = 0;
        while t < n
            invariant
                n == input@.len(),
                k < n,
                t <= n,
                sums.len() == t + 1,
                row.len() == t,
                sums[0] == zero,
                sums.last() == sum,
                forall|e: usize| e < n ==> call_requires(root, (e, n)),
                forall|acc: T, m: T, x: T| call_requires(mul_add, (acc, m, x)),
                forall|c: int|
                    0 <= c < t ==> call_ensures(
                        root,
                        (phase_of(direction, k as nat, c as nat, n as nat) as usize, n),
                        #[trigger] row[c],
                    ),
                forall|c: int|
                    0 <= c < t ==> call_ensures(
                        mul_add,
                        (sums[c], row[c], #[trigger] input@[c]),
                        sums[c + 1],
                    ),
            decreases n - t,
        {
            let e = phase_exponent(direction, k, t, n);
            let w = root(e, n);
            let next = mul_add(sum, w, input[t]);
            proof {
                row = row.push(w);
                sums = sums.push(next);
            }
            sum = next;
            t = t + 1;
        }
        proof {
            assert(is_phase_row(row, direction, k as nat, n as nat, root));
            assert(is_running_sum(sums, mul_add, zero, row, input@));
        }
        out.push(sum);
        k = k + 1;
    }
    out
}

/// What `selected` holds: each pair is a marked entry of `state` with its own
/// index, the indices ascend strictly, and every marked index occurs.
pub proof fn lemma_selected_holds_the_marked<T>(state: Seq<T>, keep: Seq<bool>, upto: nat)
    requires
        upto <= state.len(),
        keep.len() == state.len(),
        state.len() <= usize::MAX,
    ensures
        selected(state, keep, upto).len() <= upto,
        forall|p: int|
            0 <= p < selected(state, keep, upto).len() ==> {
                let pair = #[trigger] selected(state, keep, upto)[p];
                pair.0 < upto && keep[pair.0 as int] && pair.1 == state[pair.0 as int]
            },
        forall|p: int, q: int|
            0 <= p < q < selected(state, keep, upto).len() ==> (#[trigger] selected(
                state,
                keep,
                upto,
            )[p]).0 < (#[trigger] selected(state, keep, upto)[q]).0,
        forall|i: int|
            0 <= i < upto && #[trigger] keep[i] ==> exists|p: int|
                0 <= p < selected(state, keep, upto).len() && (#[trigger] selected(
                    state,
                    keep,
                    upto,
                )[p]).0 == i,
    decreases upto,
{
    if upto > 0 {
        let less = (upto - 1) as nat;
        let rest = selected(state, keep, less);
        let out = selected(state, keep, upto);
        lemma_selected_holds_the_marked(state, keep, less);
        assert forall|i: int| 0 <= i < upto && #[trigger] keep[i] implies exists|p: int|
            0 <= p < out.len() && (#[trigger] out[p]).0 == i by {
            if i < less {
                let p = choose|p: int| 0 <= p < rest.len() && (#[trigger] rest[p]).0 == i;
                assert(out[p] == rest[p]);
            } else {
                assert(out[rest.len() as int].0 == i);
            }
        }
    }
}

/// Building the matrix and applying it agrees with the direct sum: an entry
/// that is the dot product of row `k` of a transform matrix with `input` is
/// entry `k` of the direct-sum transform of `input`.
pub proof fn lemma_matrix_row_gives_direct_sum<T, R: Fn(usize, usize) -> T, F: Fn(T, T, T) -> T>(
    grid: Seq<Seq<T>>,
    direction: Direction,
    k: nat,
    input: Seq<T>,
    zero: T,
    root: R,
    mul_add: F,
    total: T,
)
    requires
        is_transform_grid(grid, direction, input.len(), root),
        k < input.len(),
        is_dot_product(total, mul_add, zero, grid[k as int], input),
    ensures
        is_direct_sum(total, direction, k, input, zero, root, mul_add),
{
    assert(is_phase_row(grid[k as int], direction, k, input.len(), root));
}

/// The product of a matrix row with a basis vector is the row's entry at the
/// basis index, provided that the scalars behave: adding `m * zero` changes
/// nothing, and `zero + m * one` is `m`. With an index beyond the vector the
/// product is `zero`.
pub proof fn lemma_basis_vector_selects_entry<T, F: Fn(T, T, T) -> T>(
    total: T,
    mul_add: F,
    zero: T,
    one: T,
    coeffs: Seq<T>,
    xs: Seq<T>,
    index: nat,
)
    requires
        forall|i: int|
            0 <= i < xs.len() ==> #[trigger] xs[i] == if i == index {
                one
            } else {
                zero
            },
        is_dot_product(total, mul_add, zero, coeffs, xs),
        forall|acc: T, m: T, r: T| #[trigger] call_ensures(mul_add, (acc, m, zero), r) ==> r == acc,
        forall|m: T, r: T| #[trigger] call_ensures(mul_add, (zero, m, one), r) ==> r == m,
    ensures
        total == if index < xs.len() {
            coeffs[index as int]
        } else {
            zero
        },
{
    let sums = choose|sums: Seq<T>| #[trigger]
        is_running_sum(sums, mul_add, zero, coeffs, xs) && sums.last() == total;
    lemma_running_sum_with_basis_vector(sums, mul_add, zero, one, coeffs, xs, index, xs.len());
}

/// The running totals of a product with a basis vector: `zero` up to the
/// basis index, the coefficient there from then on.
proof fn lemma_running_sum_with_basis_vector<T, F: Fn(T, T, T) -> T>(
    sums: Seq<T>,
    mul_add: F,
    zero: T,
    one: T,
    coeffs: Seq<T>,
    xs: Seq<T>,
    index: nat,
    upto: nat,
)
    requires
        upto <= xs.len(),
        forall|i: int|
            0 <= i < xs.len() ==> #[trigger] xs[i] == if i == index {
                one
            } else {
                zero
            },
        is_running_sum(sums, mul_add, zero, coeffs, xs),
        forall|acc: T, m: T, r: T| #[trigger] call_ensures(mul_add, (acc, m, zero), r) ==> r == acc,
        forall|m: T, r: T| #[trigger] call_ensures(mul_add, (zero, m, one), r) ==> r == m,
    ensures
        sums[upto as int] == if index < upto {
            coeffs[index as int]
        } else {
            zero
        },
    decreases upto,
{
    if upto > 0 {
        let c = (upto - 1) as int;
        lemma_running_sum_with_basis_vector(
            sums,
            mul_add,
            zero,
            one,
            coeffs,
            xs,
            index,
            (upto - 1) as nat,
        );
        assert(call_ensures(mul_add, (sums[c], coeffs[c], xs[c]), sums[c + 1]));
    }
}

/// Inverting a transform matrix gives the transform of the other direction,
/// provided that the scalars behave: the conjugate of the root of unity with
/// the exponent `e` is the root with the exponent `-e`, reduced.
pub proof fn lemma_invert_reverses_direction<T, R: Fn(usize, usize) -> T, C: Fn(T) -> T>(
    grid: Seq<Seq<T>>,
    inverse: Seq<Seq<T>>,
    direction: Direction,
    dim: nat,
    root: R,
    conj: C,
)
    requires
        0 < dim <= usize::MAX,
        is_transform_grid(grid, direction, dim, root),
        is_conjugate_transpose(inverse, grid, conj),
        forall|e: usize, w: T, c: T|
            e < dim && #[trigger] call_ensures(root, (e, dim as usize), w) && #[trigger] call_ensures(
                conj,
                (w,),
                c,
            ) ==> call_ensures(
                root,
                (
                    if e == 0 {
                        0usize
                    } else {
                        (dim - e) as usize
                    },
                    dim as usize,
                ),
                c,
            ),
    ensures
        is_transform_grid(inverse, direction.reversed(), dim, root),
{
    assert forall|j: int| 0 <= j < dim implies is_phase_row(
        #[trigger] inverse[j],
        direction.reversed(),
        j as nat,
        dim,
        root,
    ) by {
        assert forall|k: int| 0 <= k < dim implies call_ensures(
            root,
            (phase_of(direction.reversed(), j as nat, k as nat, dim) as usize, dim as usize),
            #[trigger] inverse[j][k],
        ) by {
            let e = phase_of(direction, k as nat, j as nat, dim);
            crate::phase::lemma_reversed_phase_is_conjugate(direction, k as nat, j as nat, dim);
            vstd::arithmetic::div_mod::lemma_mod_bound(
                direction.sign() * (k as nat * j as nat),
                dim as int,
            );
            assert(is_phase_row(grid[k], direction, k as nat, dim, root));
            assert(call_ensures(root, (e as usize, dim as usize), grid[k][j]));
            assert(call_ensures(conj, (grid[k][j],), inverse[j][k]));
        }
    }
}

} // verus!
