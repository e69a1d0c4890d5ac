use num_complex::Complex64;
use qft_lab::matrix::{EngineError, Matrix};
use qft_lab::phase::Direction;
use qft_lab::transform::{
    amplitudes_above_threshold, apply, basis_vector, build_transform, dft, dimension, invert,
    transform_matrix,
};
use std::f64::consts::PI;

const TOLERANCE: f64 = 1e-9;

fn zero() -> Complex64 {
    Complex64::new(0.0, 0.0)
}

fn one() -> Complex64 {
    Complex64::new(1.0, 0.0)
}

/// `exp(2 pi i e / dim) / sqrt(dim)`: the entry of the unitary transform.
fn unitary_root(e: usize, dim: usize) -> Complex64 {
    let norm = 1.0 / (dim as f64).sqrt();
    Complex64::from_polar(norm, 2.0 * PI * (e as f64) / (dim as f64))
}

/// `exp(2 pi i e / dim)`: the entry of the plain sum.
fn plain_root(e: usize, dim: usize) -> Complex64 {
    let angle = 2.0 * PI * (e as f64) / (dim as f64);
    Complex64::new(angle.cos(), angle.sin())
}

fn mul_add(acc: Complex64, m: Complex64, x: Complex64) -> Complex64 {
    acc + m * x
}

fn conj(c: Complex64) -> Complex64 {
    c.conj()
}

fn close(a: Complex64, b: Complex64) -> bool {
    (a.re - b.re).abs() <= TOLERANCE && (a.im - b.im).abs() <= TOLERANCE
}

fn forward(n_bits: usize) -> Matrix<Complex64> {
    build_transform(n_bits, Direction::Forward, unitary_root).unwrap()
}

fn column(matrix: &Matrix<Complex64>, col: usize) -> Vec<Complex64> {
    matrix.rows().iter().map(|row| row[col]).collect()
}

#[test]
fn inverse_times_forward_is_identity() {
    for n_bits in 0..6 {
        let m = forward(n_bits);
        let inverse = invert(&m, conj);
        let dim = m.dim();
        assert_eq!(dim, 1 << n_bits);
        assert_eq!(inverse.dim(), dim);
        for col in 0..dim {
            let product_column = apply(&inverse, &column(&m, col), zero(), mul_add).unwrap();
            for row in 0..dim {
                let expected = if row == col { one() } else { zero() };
                assert!(
                    close(product_column[row], expected),
                    "n_bits {} entry ({}, {}) is {}",
                    n_bits,
                    row,
                    col,
                    product_column[row]
                );
            }
        }
    }
}

#[test]
fn inverse_direction_matrix_is_the_conjugate_transpose() {
    for n_bits in 0..5 {
        let m = forward(n_bits);
        let by_conjugation = invert(&m, conj);
        let by_direction = build_transform(n_bits, Direction::Inverse, unitary_root).unwrap();
        let dim = m.dim();
        for i in 0..dim {
            for j in 0..dim {
                let a = *by_conjugation.entry(i, j).unwrap();
                let b = *by_direction.entry(i, j).unwrap();
                assert_eq!(a, m.entry(j, i).unwrap().conj());
                assert!(close(a, b));
            }
        }
    }
}

#[test]
fn round_trip_recovers_every_basis_vector() {
    for n_bits in 0..6 {
        let m = forward(n_bits);
        let inverse = invert(&m, conj);
        for idx in 0..(1usize << n_bits) {
            let start = basis_vector(n_bits, idx, zero(), one()).unwrap();
            let there = apply(&m, &start, zero(), mul_add).unwrap();
            let back = apply(&inverse, &there, zero(), mul_add).unwrap();
            assert_eq!(back.len(), start.len());
            for k in 0..start.len() {
                assert!(close(back[k], start[k]), "n_bits {} idx {} k {}", n_bits, idx, k);
            }
        }
    }
}

#[test]
fn round_trip_recovers_a_mixed_vector() {
    let m = forward(3);
    let inverse = invert(&m, conj);
    let start: Vec<Complex64> =
        (0..8).map(|k| Complex64::new(k as f64 - 3.5, 0.25 * (k * k) as f64)).collect();
    let there = apply(&m, &start, zero(), mul_add).unwrap();
    let back = apply(&inverse, &there, zero(), mul_add).unwrap();
    for k in 0..8 {
        assert!(close(back[k], start[k]));
    }
}

#[test]
fn rows_and_columns_are_normalized() {
    for n_bits in 0..6 {
        let m = forward(n_bits);
        let dim = m.dim();
        for i in 0..dim {
            let row_sum: f64 = m.rows()[i].iter().map(|c| c.norm_sqr()).sum();
            let col_sum: f64 = column(&m, i).iter().map(|c| c.norm_sqr()).sum();
            assert!((row_sum - 1.0).abs() <= TOLERANCE);
            assert!((col_sum - 1.0).abs() <= TOLERANCE);
        }
    }
}

#[test]
fn basis_transform_closed_form() {
    let m = forward(2);
    let input = basis_vector(2, 1, zero(), one()).unwrap();
    let output = apply(&m, &input, zero(), mul_add).unwrap();
    assert_eq!(output.len(), 4);
    for k in 0..4 {
        let expected = Complex64::from_polar(0.5, 2.0 * PI * (k as f64) / 4.0);
        assert!(close(output[k], expected));
        assert!((output[k].norm() - 0.5).abs() <= TOLERANCE);
    }
    assert!(close(output[0], Complex64::new(0.5, 0.0)));
    assert!(close(output[1], Complex64::new(0.0, 0.5)));
    assert!(close(output[2], Complex64::new(-0.5, 0.0)));
    assert!(close(output[3], Complex64::new(0.0, -0.5)));
}

#[test]
fn forward_entries_follow_the_closed_form() {
    let m = forward(3);
    for j in 0..8usize {
        for k in 0..8usize {
            let angle = 2.0 * PI * ((j * k) as f64) / 8.0;
            let expected = Complex64::from_polar(1.0 / 8f64.sqrt(), angle);
            assert!(close(*m.entry(j, k).unwrap(), expected));
        }
    }
}

#[test]
fn apply_rejects_a_vector_of_the_wrong_length() {
    let m = forward(2);
    let short = vec![one(), zero(), zero()];
    assert_eq!(apply(&m, &short, zero(), mul_add), Err(EngineError::DimensionMismatch));
    let long = vec![one(); 5];
    assert_eq!(apply(&m, &long, zero(), mul_add), Err(EngineError::DimensionMismatch));
    let empty: Vec<Complex64> = Vec::new();
    assert_eq!(apply(&m, &empty, zero(), mul_add), Err(EngineError::DimensionMismatch));
}

#[test]
fn apply_on_integers_is_the_matrix_vector_product() {
    let m = Matrix::from_rows(vec![vec![1i64, 2, 3], vec![4, 5, 6], vec![7, 8, 9]]).unwrap();
    let out = apply(&m, &vec![1i64, 0, -1], 0, |acc: i64, a: i64, x: i64| acc + a * x).unwrap();
    assert_eq!(out, vec![-2, -2, -2]);
    let out = apply(&m, &vec![1i64, 1, 1], 100, |acc: i64, a: i64, x: i64| acc + a * x).unwrap();
    assert_eq!(out, vec![106, 115, 124]);
}

#[test]
fn apply_sums_the_columns_in_order() {
    let m = Matrix::from_rows(vec![vec![1u32, 2], vec![3, 4]]).unwrap();
    let trace = apply(&m, &vec![5u32, 6], 0, |acc: u32, a: u32, x: u32| acc * 100 + a * x).unwrap();
    assert_eq!(trace, vec![5 * 100 + 12, 15 * 100 + 24]);
}

#[test]
fn apply_of_the_empty_matrix() {
    let m: Matrix<i64> = Matrix::from_rows(Vec::new()).unwrap();
    let out = apply(&m, &Vec::new(), 0, |acc: i64, a: i64, x: i64| acc + a * x).unwrap();
    assert!(out.is_empty());
}

#[test]
fn threshold_filtering_keeps_only_the_significant_amplitude() {
    let state = vec![
        zero(),
        Complex64::new(0.99999999995, 0.0),
        Complex64::new(1e-12, 0.0),
        zero(),
    ];
    let kept = amplitudes_above_threshold(&state, |a: Complex64| a.norm_sqr() > 1e-10);
    assert_eq!(kept, vec![(1usize, Complex64::new(0.99999999995, 0.0))]);
}

#[test]
fn threshold_filtering_is_strict_and_ordered() {
    let state = vec![3i64, 10, 4, 11, 10, 12];
    let kept = amplitudes_above_threshold(&state, |a: i64| a > 10);
    assert_eq!(kept, vec![(3usize, 11i64), (5, 12)]);
    let all = amplitudes_above_threshold(&state, |_a: i64| true);
    assert_eq!(all, vec![(0usize, 3i64), (1, 10), (2, 4), (3, 11), (4, 10), (5, 12)]);
    let none = amplitudes_above_threshold(&state, |_a: i64| false);
    assert!(none.is_empty());
    let nothing: Vec<i64> = Vec::new();
    assert!(amplitudes_above_threshold(&nothing, |_a: i64| true).is_empty());
}

#[test]
fn threshold_filtering_of_a_transformed_basis_state() {
    let m = forward(2);
    let input = basis_vector(2, 0, zero(), one()).unwrap();
    let output = apply(&m, &input, zero(), mul_add).unwrap();
    let kept = amplitudes_above_threshold(&output, |a: Complex64| a.norm_sqr() > 1e-10);
    let indices: Vec<usize> = kept.iter().map(|pair| pair.0).collect();
    assert_eq!(indices, vec![0, 1, 2, 3]);
    let back = apply(&invert(&m, conj), &output, zero(), mul_add).unwrap();
    let kept = amplitudes_above_threshold(&back, |a: Complex64| a.norm_sqr() > 1e-10);
    assert_eq!(kept.len(), 1);
    assert_eq!(kept[0].0, 0);
    assert!(close(kept[0].1, one()));
}

#[test]
fn dft_of_all_ones() {
    let input = vec![one(); 4];
    let output = dft(&input, Direction::Inverse, zero(), plain_root, mul_add);
    assert_eq!(output.len(), 4);
    assert!(close(output[0], Complex64::new(4.0, 0.0)));
    for k in 1..4 {
        assert!(close(output[k], zero()));
    }
}

#[test]
fn dft_of_a_ramp() {
    let input: Vec<Complex64> = (1..=4).map(|v| Complex64::new(v as f64, 0.0)).collect();
    let output = dft(&input, Direction::Inverse, zero(), plain_root, mul_add);
    assert!(close(output[0], Complex64::new(10.0, 0.0)));
    assert!(close(output[1], Complex64::new(-2.0, 2.0)));
    assert!(close(output[2], Complex64::new(-2.0, 0.0)));
    assert!(close(output[3], Complex64::new(-2.0, -2.0)));
}

#[test]
fn dft_agrees_with_the_matrix_product() {
    for n in [1usize, 2, 3, 5, 8] {
        let input: Vec<Complex64> =
            (0..n).map(|k| Complex64::new(1.0 + k as f64, 0.5 * k as f64)).collect();
        for direction in [Direction::Forward, Direction::Inverse] {
            let direct = dft(&input, direction, zero(), plain_root, mul_add);
            let matrix = transform_matrix(n, direction, plain_root);
            let product = apply(&matrix, &input, zero(), mul_add).unwrap();
            assert_eq!(direct, product);
        }
    }
}

#[test]
fn dft_directions_undo_each_other_up_to_the_length() {
    let input: Vec<Complex64> = (0..6).map(|k| Complex64::new(k as f64, -1.0)).collect();
    let there = dft(&input, Direction::Inverse, zero(), plain_root, mul_add);
    let back = dft(&there, Direction::Forward, zero(), plain_root, mul_add);
    for k in 0..6 {
        assert!(close(back[k] / 6.0, input[k]));
    }
}

#[test]
fn dft_of_nothing_is_nothing() {
    let input: Vec<Complex64> = Vec::new();
    assert!(dft(&input, Direction::Inverse, zero(), plain_root, mul_add).is_empty());
}

#[test]
fn dft_asks_for_the_phase_of_each_term() {
    let input = vec![1u64; 3];
    let exponents = dft(
        &input,
        Direction::Forward,
        0u64,
        |e: usize, n: usize| (e + 10 * n) as u64,
        |acc: u64, w: u64, x: u64| acc * 100 + w * x,
    );
    assert_eq!(exponents, vec![303030, 303132, 303231]);
    let exponents = dft(
        &input,
        Direction::Inverse,
        0u64,
        |e: usize, n: usize| (e + 10 * n) as u64,
        |acc: u64, w: u64, x: u64| acc * 100 + w * x,
    );
    assert_eq!(exponents, vec![303030, 303231, 303132]);
}

#[test]
fn basis_vector_has_a_single_one() {
    let v = basis_vector(3, 5, 0u8, 1u8).unwrap();
    assert_eq!(v, vec![0, 0, 0, 0, 0, 1, 0, 0]);
    let v = basis_vector(0, 0, 0u8, 1u8).unwrap();
    assert_eq!(v, vec![1]);
    let v = basis_vector(2, 1, zero(), one()).unwrap();
    assert_eq!(v, vec![zero(), one(), zero(), zero()]);
}

#[test]
fn basis_vector_beyond_the_dimension_is_all_zero() {
    assert_eq!(basis_vector(2, 4, 0u8, 1u8).unwrap(), vec![0, 0, 0, 0]);
    assert_eq!(basis_vector(2, usize::MAX, 0u8, 1u8).unwrap(), vec![0, 0, 0, 0]);
    assert_eq!(basis_vector(0, 1, 0u8, 1u8).unwrap(), vec![0]);
}

#[test]
fn too_many_qubits_are_out_of_range() {
    let bits = usize::BITS as usize;
    assert_eq!(dimension(bits), Err(EngineError::OutOfRange));
    assert_eq!(dimension(usize::MAX), Err(EngineError::OutOfRange));
    assert_eq!(basis_vector(bits, 0, 0u8, 1u8), Err(EngineError::OutOfRange));
    let built = build_transform(bits, Direction::Forward, |_e: usize, _d: usize| 0u8);
    assert_eq!(built.err(), Some(EngineError::OutOfRange));
}

#[test]
fn dimension_is_a_power_of_two() {
    assert_eq!(dimension(0), Ok(1));
    assert_eq!(dimension(1), Ok(2));
    assert_eq!(dimension(2), Ok(4));
    assert_eq!(dimension(10), Ok(1024));
    let top = usize::BITS as usize - 1;
    assert_eq!(dimension(top), Ok(1usize << top));
}

#[test]
fn transform_matrix_holds_the_phase_of_each_entry() {
    let m = transform_matrix(4, Direction::Forward, |e: usize, d: usize| (e, d));
    let expected = vec![
        vec![(0, 4), (0, 4), (0, 4), (0, 4)],
        vec![(0, 4), (1, 4), (2, 4), (3, 4)],
        vec![(0, 4), (2, 4), (0, 4), (2, 4)],
        vec![(0, 4), (3, 4), (2, 4), (1, 4)],
    ];
    assert_eq!(m.rows(), &expected);
    let m = transform_matrix(4, Direction::Inverse, |e: usize, _d: usize| e);
    let expected = vec![vec![0, 0, 0, 0], vec![0, 3, 2, 1], vec![0, 2, 0, 2], vec![0, 1, 2, 3]];
    assert_eq!(m.rows(), &expected);
    let m = transform_matrix(3, Direction::Forward, |e: usize, _d: usize| e);
    assert_eq!(m.rows(), &vec![vec![0, 0, 0], vec![0, 1, 2], vec![0, 2, 1]]);
    let m = transform_matrix(0, Direction::Forward, |e: usize, _d: usize| e);
    assert_eq!(m.dim(), 0);
}

#[test]
fn build_transform_for_no_qubits_is_one_by_one() {
    let m = forward(0);
    assert_eq!(m.dim(), 1);
    assert!(close(*m.entry(0, 0).unwrap(), one()));
}

#[test]
fn invert_transposes_and_conjugates() {
    let m = Matrix::from_rows(vec![vec![1i32, 2], vec![3, 4]]).unwrap();
    let t = invert(&m, |x: i32| -x);
    assert_eq!(t.rows(), &vec![vec![-1, -3], vec![-2, -4]]);
    let m = Matrix::from_rows(vec![
        vec![Complex64::new(1.0, 2.0), Complex64::new(3.0, -4.0)],
        vec![Complex64::new(0.0, 1.0), Complex64::new(-5.0, 0.5)],
    ])
    .unwrap();
    let t = invert(&m, conj);
    assert_eq!(*t.entry(0, 0).unwrap(), Complex64::new(1.0, -2.0));
    assert_eq!(*t.entry(0, 1).unwrap(), Complex64::new(0.0, -1.0));
    assert_eq!(*t.entry(1, 0).unwrap(), Complex64::new(3.0, 4.0));
    assert_eq!(*t.entry(1, 1).unwrap(), Complex64::new(-5.0, -0.5));
}

#[test]
fn matrix_from_rows_wants_a_square() {
    assert!(Matrix::from_rows(vec![vec![1, 2], vec![3, 4]]).is_ok());
    assert_eq!(
        Matrix::from_rows(vec![vec![1, 2], vec![3]]).err(),
        Some(EngineError::DimensionMismatch)
    );
    assert_eq!(
        Matrix::from_rows(vec![vec![1, 2, 3], vec![4, 5, 6]]).err(),
        Some(EngineError::DimensionMismatch)
    );
    assert_eq!(Matrix::from_rows(vec![Vec::<u8>::new()]).err(), Some(EngineError::DimensionMismatch));
}

#[test]
fn matrix_entry_outside_is_none() {
    let m = Matrix::from_rows(vec![vec![1, 2], vec![3, 4]]).unwrap();
    assert_eq!(m.dim(), 2);
    assert_eq!(m.entry(1, 0), Some(&3));
    assert_eq!(m.entry(0, 1), Some(&2));
    assert_eq!(m.entry(2, 0), None);
    assert_eq!(m.entry(0, 2), None);
}

#[test]
fn a_basis_state_picks_a_column() {
    for n_bits in 0..5 {
        let m = forward(n_bits);
        for idx in 0..m.dim() {
            let input = basis_vector(n_bits, idx, zero(), one()).unwrap();
            let output = apply(&m, &input, zero(), mul_add).unwrap();
            let expected = column(&m, idx);
            for k in 0..m.dim() {
                assert!(close(output[k], expected[k]));
            }
        }
        let nothing = basis_vector(n_bits, m.dim(), zero(), one()).unwrap();
        let output = apply(&m, &nothing, zero(), mul_add).unwrap();
        assert!(output.iter().all(|c| close(*c, zero())));
    }
}

#[test]
fn a_basis_state_picks_an_entry_exactly_on_integers() {
    let m = Matrix::from_rows(vec![vec![1i64, 2, 3], vec![4, 5, 6], vec![7, 8, 9]]).unwrap();
    let exact = |acc: i64, a: i64, x: i64| acc + a * x;
    assert_eq!(apply(&m, &vec![0, 1, 0], 0, exact), Ok(vec![2, 5, 8]));
    assert_eq!(apply(&m, &vec![0, 0, 1], 0, exact), Ok(vec![3, 6, 9]));
    assert_eq!(apply(&m, &vec![0, 0, 0], 0, exact), Ok(vec![0, 0, 0]));
}
