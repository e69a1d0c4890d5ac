//! Small verified building blocks for transform and factoring experiments.
//!
//! - `transform`, with `matrix` and `phase`: a discrete Fourier transform
//!   engine that is generic in its scalar type. It builds the transform
//!   matrix, applies a matrix to a vector, inverts by conjugate transpose and
//!   filters amplitudes; `unitarity` holds the facts about phases on which
//!   the unitarity of the matrix rests.
//! - `divisors`, `order`, `units` and `factoring`: Euclid's algorithm,
//!   modular powers, multiplicative orders, and factoring by order finding.
//! - `graph` and `labels`: a graph of labelled nodes and named edges.
//! - `sampling`: random edges between numbered nodes.
//! - `entropy`: the random source, which is taken on trust.

pub mod divisors;
pub mod entropy;
pub mod factoring;
pub mod graph;
pub mod labels;
pub mod matrix;
pub mod order;
pub mod phase;
pub mod sampling;
pub mod transform;
pub mod unitarity;
pub mod units;
