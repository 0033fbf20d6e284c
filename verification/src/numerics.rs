//! Matrices, and the arithmetic that a merge asks for.

use crate::dtype::Dtype;
use vstd::arithmetic::div_mod::lemma_fundamental_div_mod_converse;
use vstd::prelude::*;

verus! {

/// A matrix as its dimensions and its values, row by row.
#[verifier::ext_equal]
pub struct Grid<T> {
    pub rows: nat,
    pub cols: nat,
    pub values: Seq<T>,
}

impl<T> Grid<T> {
    /// The rows from `start` up to `end`.
    pub open spec fn band(self, start: int, end: int) -> Grid<T> {
        Grid {
            rows: (end - start) as nat,
            cols: self.cols,
            values: self.values.subrange(start * self.cols, end * self.cols),
        }
    }

    /// The matrix with rows and columns exchanged.
    pub open spec fn transposed(self) -> Grid<T> {
        Grid {
            rows: self.cols,
            cols: self.rows,
            values: Seq::new(
                self.rows * self.cols,
                |k: int| self.values[(k % (self.rows as int)) * self.cols + k / (self.rows as int)],
            ),
        }
    }
}

/// A matrix whose values are stored row by row.
#[derive(Debug)]
pub struct Matrix<T> {
    rows: usize,
    cols: usize,
    values: Vec<T>,
}

impl<T> View for Matrix<T> {
    type V = Grid<T>;

    closed spec fn view(&self) -> Grid<T> {
        Grid { rows: self.rows as nat, cols: self.cols as nat, values: self.values@ }
    }
}

impl<T> Matrix<T> {
    #[verifier::type_invariant]
    closed spec fn filled(self) -> bool {
        self.values@.len() == self.rows * self.cols
    }

    /// A matrix of these dimensions with these values, if they are as many as it has places.
    pub fn from_values(rows: usize, cols: usize, values: Vec<T>) -> (r: Option<Matrix<T>>)
        ensures
            r is Some <==> values@.len() == rows * cols,
            r matches Some(matrix) ==> matrix@ == (Grid {
                rows: rows as nat,
                cols: cols as nat,
                values: values@,
            }),
    {
        let count: usize = values.len();
        match rows.checked_mul(cols) {
            Some(places) => if places == count {
                Some(Matrix { rows, cols, values })
            } else {
                None
            },
            None => None,
        }
    }

    /// The number of rows.
    pub fn nrows(&self) -> (r: usize)
        ensures
            r == self@.rows,
            self@.values.len() == self@.rows * self@.cols,
    {
        proof {
            use_type_invariant(self);
        }
        self.rows
    }

    /// The number of columns.
    pub fn ncols(&self) -> (r: usize)
        ensures
            r == self@.cols,
    {
        self.cols
    }

    /// The values, row by row.
    pub fn values(&self) -> (r: &Vec<T>)
        ensures
            r@ == self@.values,
            self@.values.len() == self@.rows * self@.cols,
    {
        proof {
            use_type_invariant(self);
        }
        &self.values
    }
}

/// A place in a row that exists is within the matrix.
pub proof fn lemma_place_within(row: int, rows: int, cols: int, place: int)
    requires
        0 <= row < rows,
        0 <= place <= cols,
    ensures
        0 <= row * cols,
        row * cols + place <= rows * cols,
        (row + 1) * cols == row * cols + cols,
{
    assert((row + 1) * cols == row * cols + cols) by (nonlinear_arith);
    assert((row + 1) * cols <= rows * cols) by (nonlinear_arith)
        requires
            row + 1 <= rows,
            0 <= cols,
    ;
    assert(0 <= row * cols) by (nonlinear_arith)
        requires
            0 <= row,
            0 <= cols,
    ;
}

impl<T: Copy> Matrix<T> {
    /// The rows from `start` up to `end`.
    pub fn band(&self, start: usize, end: usize) -> (r: Matrix<T>)
        requires
            start <= end <= self@.rows,
        ensures
            r@ == self@.band(start as int, end as int),
    {
        proof {
            use_type_invariant(self);
            assert(0 <= start * self.cols <= end * self.cols <= self.rows * self.cols)
                by (nonlinear_arith)
                requires
                    0 <= start <= end <= self.rows,
                    0 <= self.cols,
            ;
            assert((end - start) * self.cols == end * self.cols - start * self.cols)
                by (nonlinear_arith);
        }
        let count: usize = self.values.len();
        let first: usize = start * self.cols;
        let last: usize = end * self.cols;
        let mut values: Vec<T> = Vec::new();
        for k in first..last
            invariant
                first <= last <= self.values@.len() == count,
                values@ == self.values@.subrange(first as int, k as int),
        {
            values.push(self.values[k]);
            assert(values@ =~= self.values@.subrange(first as int, k + 1));
        }
        Matrix { rows: end - start, cols: self.cols, values }
    }

    /// The rows from `start` up to `end` of the matrix with rows and columns exchanged: the
    /// columns from `start` up to `end`, each as a row.
    pub fn transposed_band(&self, start: usize, end: usize) -> (r: Matrix<T>)
        requires
            start <= end <= self@.cols,
        ensures
            r@ == self@.transposed().band(start as int, end as int),
    {
        proof {
            use_type_invariant(self);
            assert(0 <= start * self.rows <= end * self.rows <= self.cols * self.rows)
                by (nonlinear_arith)
                requires
                    0 <= start <= end <= self.cols,
                    0 <= self.rows,
            ;
            assert((end - start) * self.rows == end * self.rows - start * self.rows)
                by (nonlinear_arith);
            assert(self.cols * self.rows == self.rows * self.cols) by (nonlinear_arith);
        }
        let count: usize = self.values.len();
        let ghost whole = self@.transposed().values;
        let ghost rows = self.rows as int;
        assert((start - start) * rows == 0) by (nonlinear_arith);
        let mut values: Vec<T> = Vec::new();
        for c in start..end
            invariant
                start <= end <= self.cols,
                rows == self.rows,
                whole == self@.transposed().values,
                count == self.values@.len() == self.rows * self.cols,
                self.cols * self.rows == self.rows * self.cols,
                values@.len() == (c - start) * rows,
                forall|k: int|
                    0 <= k < values@.len() ==> #[trigger] values@[k] == whole[start * rows + k],
        {
            for r in 0..self.rows
                invariant
                    start <= c < end <= self.cols,
                    rows == self.rows,
                    whole == self@.transposed().values,
                    count == self.values@.len() == self.rows * self.cols,
                    self.cols * self.rows == self.rows * self.cols,
                    values@.len() == (c - start) * rows + r,
                    forall|k: int|
                        0 <= k < values@.len() ==> #[trigger] values@[k] == whole[start * rows + k],
            {
                proof {
                    lemma_place_within(r as int, rows, self.cols as int, c as int);
                    lemma_place_within(r as int, rows, self.cols as int, c + 1);
                    lemma_place_within(c as int, self.cols as int, rows, r as int);
                    lemma_place_within(c as int, self.cols as int, rows, r + 1);
                    lemma_fundamental_div_mod_converse(c * rows + r, rows, c as int, r as int);
                    assert((c - start) * rows + start * rows == c * rows) by (nonlinear_arith);
                    assert(whole[c * rows + r] == self.values@[r * self.cols + c]);
                }
                values.push(self.values[r * self.cols + c]);
            }
            proof {
                assert((c + 1 - start) * rows == (c - start) * rows + rows) by (nonlinear_arith);
            }
        }
        let r = Matrix { rows: end - start, cols: self.rows, values };
        assert(r@.values =~= self@.transposed().band(start as int, end as int).values);
        r
    }
}

/// The arithmetic of a merge, on two kinds of floating-point number: single precision for the
/// configuration, for biases and for what replaces a tensor, double precision for the low-rank
/// factors, their product and its sum with a weight. An element of a tensor is given and taken as
/// the bits that stand for it in a file.
pub trait Numerics {
    type Single;

    type Double: Copy;

    /// The number that the bits of an element stand for, in single precision.
    fn single(&self, dtype: Dtype, bits: u32) -> (r: Self::Single);

    /// The number that the bits of an element stand for, in double precision.
    fn double(&self, dtype: Dtype, bits: u32) -> (r: Self::Double);

    /// The bits of the element that stands for a number. Of an element of sixteen bits only the
    /// low half counts.
    fn single_bits(&self, dtype: Dtype, value: &Self::Single) -> (r: u32);

    /// The bits of the element that stands for a number. Of an element of sixteen bits only the
    /// low half counts.
    fn double_bits(&self, dtype: Dtype, value: &Self::Double) -> (r: u32);

    /// A number in double precision.
    fn widened(&self, value: &Self::Single) -> (r: Self::Double);

    /// The sum of two numbers.
    fn sum(&self, left: &Self::Single, right: &Self::Single) -> (r: Self::Single);

    /// The sum of two numbers in double precision.
    fn double_sum(&self, left: &Self::Double, right: &Self::Double) -> (r: Self::Double);

    /// A number divided by an integer.
    fn quotient(&self, dividend: &Self::Single, divisor: u32) -> (r: Self::Single);

    /// The matrix product.
    fn product(&self, left: &Matrix<Self::Double>, right: &Matrix<Self::Double>) -> (r: Matrix<
        Self::Double,
    >);

    /// A number times the scaling, in double precision.
    fn scaled(&self, value: &Self::Double, scaling: &Self::Double) -> (r: Self::Double);
}

} // verus!
