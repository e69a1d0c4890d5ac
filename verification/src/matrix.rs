//! Square matrices over any scalar type.

use vstd::prelude::*;

verus! {

/// What the transform engine reports instead of a result.
#[derive(Clone, Copy, Debug, PartialEq, Eq, Structural)]
pub enum EngineError {
    /// A matrix and a vector, or the rows of a matrix, do not fit together.
    DimensionMismatch,
    /// The dimension asked for does not fit the machine word.
    OutOfRange,
}

/// The rows of a vector of vectors, each as a sequence.
pub open spec fn grid_of<T>(rows: Seq<Vec<T>>) -> Seq<Seq<T>> {
    Seq::new(rows.len(), |i: int| rows[i]@)
}

/// Every row is as long as there are rows.
pub open spec fn is_square<T>(grid: Seq<Seq<T>>) -> bool {
    forall|i: int| 0 <= i < grid.len() ==> (#[trigger] grid[i]).len() == grid.len()
}

/// An `N x N` grid of scalars, stored row by row. Its view is the sequence of
/// its rows; every value of this type is square.
pub struct Matrix<T> {
    rows: Vec<Vec<T>>,
}

impl<T> View for Matrix<T> {
    type V = Seq<Seq<T>>;

    closed spec fn view(&self) -> Seq<Seq<T>> {
        grid_of(self.rows@)
    }
}

impl<T> Matrix<T> {
    #[verifier::type_invariant]
    spec fn squared(&self) -> bool {
        is_square(grid_of(self.rows@))
    }

    /// Takes the rows of a matrix, provided that they form a square.
    pub fn from_rows(rows: Vec<Vec<T>>) -> (r: Result<Matrix<T>, EngineError>)
        ensures
            match r {
                Ok(m) => is_square(grid_of(rows@)) && m@ == grid_of(rows@),
                Err(e) => e == EngineError::DimensionMismatch && !is_square(grid_of(rows@)),
            },
    {
        let n = rows.len();
        let mut i: usize = 0;
        while i < n
            invariant
                n == rows@.len(),
                i <= n,
                forall|j: int| 0 <= j < i ==> (#[trigger] grid_of(rows@)[j]).len() == n,
            decreases n - i,
        {
            if rows[i].len() != n {
                assert(grid_of(rows@)[i as int].len() != n);
                return Err(EngineError::DimensionMismatch);
            }
            i = i + 1;
        }
        Ok(Matrix { rows })
    }

    /// Takes rows that are known to form a square.
    pub(crate) fn from_square_rows(rows: Vec<Vec<T>>) -> (m: Matrix<T>)
        requires
            is_square(grid_of(rows@)),
        ensures
            m@ == grid_of(rows@),
    {
        Matrix { rows }
    }

    /// The number of rows, which is the number of columns.
    pub fn dim(&self) -> (n: usize)
        ensures
            n == self@.len(),
            is_square(self@),
    {
        proof {
            use_type_invariant(self);
        }
        self.rows.len()
    }

    /// The rows, for reading.
    pub fn rows(&self) -> (r: &Vec<Vec<T>>)
        ensures
            grid_of(r@) == self@,
            is_square(self@),
    {
        proof {
            use_type_invariant(self);
        }
        &self.rows
    }

    /// The entry at `row` and `col`, or `None` outside the matrix.
    pub fn entry(&self, row: usize, col: usize) -> (r: Option<&T>)
        ensures
            r == if row < self@.len() && col < self@.len() {
                Some(&self@[row as int][col as int])
            } else {
                None
            },
    {
        proof {
            use_type_invariant(self);
        }
        if row < self.rows.len() && col < self.rows.len() {
            assert(grid_of(self.rows@)[row as int].len() == self.rows@.len());
            Some(&self.rows[row][col])
        } else {
            None
        }
    }
}

} // verus!
