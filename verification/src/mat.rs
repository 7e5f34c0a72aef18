//! Strided matrix views over a flat buffer of scalars.
//!
//! An element at `(row, col)` lives at buffer offset
//! `row * row_stride + col * col_stride`. The well-formedness invariant
//! says that every in-bounds offset lies within the buffer.

use vstd::prelude::*;
use vstd::arithmetic::mul::lemma_mul_inequality;
use vstd::arithmetic::mul::lemma_mul_nonnegative;
use crate::model::lemma_division_form_unique;

verus! {

/// The two contiguous storage orders a matrix can be built with.
#[derive(Debug, Clone, Copy, PartialEq, Eq, Structural)]
pub enum Layout {
    RowMajor,
    ColMajor,
}

/// A dense matrix of `i64` scalars addressed through row and column strides.
///
/// `MatRef` and `MatMut` name the same storage type; the read-only and
/// mutable roles are played by `&MatBase` and `&mut MatBase` borrows.
#[derive(Debug)]
pub struct MatBase {
    pub nrows: usize,
    pub ncols: usize,
    pub values: Vec<i64>,
    pub row_stride: usize,
    pub col_stride: usize,
}

pub type MatRef = MatBase;

pub type MatMut = MatBase;

impl MatBase {
    /// Buffer offset of the element at `(r, c)`.
    pub open spec fn index_of(self, r: int, c: int) -> int {
        r * self.row_stride + c * self.col_stride
    }

    pub open spec fn in_bounds_spec(self, r: int, c: int) -> bool {
        0 <= r < self.nrows && 0 <= c < self.ncols
    }

    /// Every in-bounds position addresses a slot of the buffer.
    pub open spec fn wf(self) -> bool {
        &&& self.nrows >= 1
        &&& self.ncols >= 1
        &&& forall|r: int, c: int|
            self.in_bounds_spec(r, c) ==> 0 <= #[trigger] self.index_of(r, c)
                < self.values.len()
    }

    /// The scalar stored at `(r, c)`, as a mathematical integer.
    pub open spec fn at(self, r: int, c: int) -> int {
        self.values[self.index_of(r, c)] as int
    }

    pub open spec fn at_or(self, r: int, c: int, d: int) -> int {
        if self.in_bounds_spec(r, c) {
            self.at(r, c)
        } else {
            d
        }
    }

    pub open spec fn at_or_zero(self, r: int, c: int) -> int {
        self.at_or(r, c, 0)
    }

    /// Distinct in-bounds positions address distinct buffer slots, so a
    /// write to one element leaves every other element unchanged.
    pub open spec fn injective_strides(self) -> bool {
        forall|r1: int, c1: int, r2: int, c2: int|
            self.in_bounds_spec(r1, c1) && self.in_bounds_spec(r2, c2) && (r1 != r2 || c1 != c2)
                ==> #[trigger] self.index_of(r1, c1) != #[trigger] self.index_of(r2, c2)
    }

    /// Same dimensions, strides and buffer length.
    pub open spec fn same_shape(self, o: MatBase) -> bool {
        &&& self.nrows == o.nrows
        &&& self.ncols == o.ncols
        &&& self.row_stride == o.row_stride
        &&& self.col_stride == o.col_stride
        &&& self.values.len() == o.values.len()
    }

    /// All in-bounds entries have magnitude at most `bound`.
    pub open spec fn entries_bounded(self, bound: int) -> bool {
        forall|r: int, c: int|
            self.in_bounds_spec(r, c) ==> -bound <= #[trigger] self.at(r, c) <= bound
    }

    pub fn nrows(&self) -> (r: usize)
        ensures
            r == self.nrows,
    {
        self.nrows
    }

    pub fn ncols(&self) -> (r: usize)
        ensures
            r == self.ncols,
    {
        self.ncols
    }

    pub fn row_stride(&self) -> (r: usize)
        ensures
            r == self.row_stride,
    {
        self.row_stride
    }

    pub fn col_stride(&self) -> (r: usize)
        ensures
            r == self.col_stride,
    {
        self.col_stride
    }

    pub(crate) fn in_bounds(&self, row: usize, col: usize) -> (r: bool)
        ensures
            r == self.in_bounds_spec(row as int, col as int),
    {
        row < self.nrows && col < self.ncols
    }

    /// Buffer offset of an in-bounds element.
    pub(crate) fn idx(&self, row: usize, col: usize) -> (r: usize)
        requires
            self.wf(),
            self.in_bounds_spec(row as int, col as int),
        ensures
            r == self.index_of(row as int, col as int),
            r < self.values.len(),
    {
        proof {
            lemma_mul_nonnegative(row as int, self.row_stride as int);
            lemma_mul_nonnegative(col as int, self.col_stride as int);
            assert(self.index_of(row as int, col as int) < self.values.len());
        }
        row * self.row_stride + col * self.col_stride
    }

    /// Buffer offset of `(row, col)`, or `None` when the position is out of
    /// bounds or the offset arithmetic would overflow.
    pub(crate) fn checked_idx(&self, row: usize, col: usize) -> (r: Option<usize>)
        ensures
            self.in_bounds_spec(row as int, col as int) && self.index_of(row as int, col as int)
                <= usize::MAX ==> r == Some((self.index_of(row as int, col as int)) as usize),
            !(self.in_bounds_spec(row as int, col as int) && self.index_of(
                row as int,
                col as int,
            ) <= usize::MAX) ==> r is None,
    {
        if !self.in_bounds(row, col) {
            return None;
        }
        proof {
            lemma_mul_nonnegative(row as int, self.row_stride as int);
            lemma_mul_nonnegative(col as int, self.col_stride as int);
        }
        let row_at = match row.checked_mul(self.row_stride) {
            Some(v) => v,
            None => {
                return None;
            },
        };
        let col_at = match col.checked_mul(self.col_stride) {
            Some(v) => v,
            None => {
                return None;
            },
        };
        row_at.checked_add(col_at)
    }

    /// Creates a matrix from dimensions, a value buffer and strides.
    /// Returns `None` when a dimension is zero or the last in-bounds offset
    /// does not fit in the buffer.
    pub fn from_parts(
        nrows: usize,
        ncols: usize,
        values: Vec<i64>,
        row_stride: usize,
        col_stride: usize,
    ) -> (r: Option<MatBase>)
        ensures
            ({
                let ok = nrows >= 1 && ncols >= 1 && (nrows - 1) * row_stride + (ncols - 1)
                    * col_stride < values.len();
                match r {
                    Some(m) => {
                        &&& ok
                        &&& m.wf()
                        &&& m.nrows == nrows
                        &&& m.ncols == ncols
                        &&& m.row_stride == row_stride
                        &&& m.col_stride == col_stride
                        &&& m.values == values
                    },
                    None => !ok,
                }
            }),
    {
        let mat = MatBase { nrows, ncols, values, row_stride, col_stride };
        if nrows == 0 || ncols == 0 {
            return None;
        }
        let last_idx = match mat.checked_idx(nrows - 1, ncols - 1) {
            Some(v) => v,
            None => {
                return None;
            },
        };
        if last_idx < mat.values.len() {
            proof {
                assert forall|r: int, c: int| mat.in_bounds_spec(r, c) implies 0
                    <= #[trigger] mat.index_of(r, c) < mat.values.len() by {
                    lemma_mul_nonnegative(r, row_stride as int);
                    lemma_mul_nonnegative(c, col_stride as int);
                    lemma_mul_inequality(r, nrows - 1, row_stride as int);
                    lemma_mul_inequality(c, ncols - 1, col_stride as int);
                }
            }
            Some(mat)
        } else {
            None
        }
    }

    /// Creates a matrix with row-major layout.
    pub fn row_major(nrows: usize, ncols: usize, values: Vec<i64>) -> (r: MatBase)
        requires
            nrows >= 1,
            ncols >= 1,
            values.len() == nrows * ncols,
        ensures
            r.wf(),
            r.injective_strides(),
            r.nrows == nrows,
            r.ncols == ncols,
            r.row_stride == ncols,
            r.col_stride == 1,
            r.values == values,
            forall|i: int, j: int|
                r.in_bounds_spec(i, j) ==> #[trigger] r.at(i, j) == values[i * ncols + j],
    {
        proof {
            lemma_contiguous_last_index(nrows as int, ncols as int);
        }
        let mat = match MatBase::from_parts(nrows, ncols, values, ncols, 1) {
            Some(m) => m,
            None => {
                proof {
                    assert(false);
                }
                unreached()
            },
        };
        proof {
            lemma_row_major_injective(mat);
        }
        mat
    }

    /// Creates a matrix with column-major layout.
    pub fn col_major(nrows: usize, ncols: usize, values: Vec<i64>) -> (r: MatBase)
        requires
            nrows >= 1,
            ncols >= 1,
            values.len() == nrows * ncols,
        ensures
            r.wf(),
            r.injective_strides(),
            r.nrows == nrows,
            r.ncols == ncols,
            r.row_stride == 1,
            r.col_stride == nrows,
            r.values == values,
            forall|i: int, j: int|
                r.in_bounds_spec(i, j) ==> #[trigger] r.at(i, j) == values[i + j * nrows],
    {
        proof {
            lemma_contiguous_last_index(ncols as int, nrows as int);
        }
        let mat = match MatBase::from_parts(nrows, ncols, values, 1, nrows) {
            Some(m) => m,
            None => {
                proof {
                    assert(false);
                }
                unreached()
            },
        };
        proof {
            lemma_col_major_injective(mat);
        }
        mat
    }

    /// Creates a matrix with the given contiguous layout.
    pub fn new(nrows: usize, ncols: usize, values: Vec<i64>, layout: Layout) -> (r: MatBase)
        requires
            nrows >= 1,
            ncols >= 1,
            values.len() == nrows * ncols,
        ensures
            r.wf(),
            r.injective_strides(),
            r.nrows == nrows,
            r.ncols == ncols,
            r.values == values,
            layout == Layout::RowMajor ==> r.row_stride == ncols && r.col_stride == 1,
            layout == Layout::ColMajor ==> r.row_stride == 1 && r.col_stride == nrows,
    {
        match layout {
            Layout::RowMajor => MatBase::row_major(nrows, ncols, values),
            Layout::ColMajor => MatBase::col_major(nrows, ncols, values),
        }
    }

    /// Extracts a slice containing the matrix values.
    pub fn as_slice(&self) -> (r: &[i64])
        ensures
            r@ == self.values@,
    {
        self.values.as_slice()
    }

    /// Extracts a mutable slice containing the matrix values.
    pub fn as_mut_slice(&mut self) -> (r: &mut [i64])
        ensures
            r@ == old(self).values@,
            final(self).values@ == final(r)@,
            final(self).nrows == old(self).nrows,
            final(self).ncols == old(self).ncols,
            final(self).row_stride == old(self).row_stride,
            final(self).col_stride == old(self).col_stride,
    {
        self.values.as_mut_slice()
    }

    /// Returns the element at `(row, col)`.
    pub fn get(&self, row: usize, col: usize) -> (r: i64)
        requires
            self.wf(),
            self.in_bounds_spec(row as int, col as int),
        ensures
            r as int == self.at(row as int, col as int),
    {
        let i = self.idx(row, col);
        self.values[i]
    }

    /// Returns the element at `(row, col)`, or `default` when out of bounds.
    pub fn get_or(&self, row: usize, col: usize, default: i64) -> (r: i64)
        requires
            self.wf(),
        ensures
            r as int == self.at_or(row as int, col as int, default as int),
    {
        if self.in_bounds(row, col) {
            self.get(row, col)
        } else {
            default
        }
    }

    /// Returns the element at `(row, col)`, or zero when out of bounds.
    pub fn get_or_zero(&self, row: usize, col: usize) -> (r: i64)
        requires
            self.wf(),
        ensures
            r as int == self.at_or_zero(row as int, col as int),
    {
        self.get_or(row, col, 0)
    }

    /// Returns a mutable reference to the element at `(row, col)`.
    pub fn get_mut(&mut self, row: usize, col: usize) -> (r: &mut i64)
        requires
            old(self).wf(),
            old(self).in_bounds_spec(row as int, col as int),
        ensures
            *r as int == old(self).at(row as int, col as int),
            final(self).values@ == old(self).values@.update(
                old(self).index_of(row as int, col as int),
                *final(r),
            ),
            final(self).same_shape(*old(self)),
            final(self).nrows == old(self).nrows,
            final(self).ncols == old(self).ncols,
            final(self).row_stride == old(self).row_stride,
            final(self).col_stride == old(self).col_stride,
    {
        let i = self.idx(row, col);
        &mut self.values[i]
    }

    /// Overwrites the element at `(row, col)`.
    pub fn set(&mut self, row: usize, col: usize, v: i64)
        requires
            old(self).wf(),
            old(self).in_bounds_spec(row as int, col as int),
        ensures
            final(self).values@ == old(self).values@.update(
                old(self).index_of(row as int, col as int),
                v,
            ),
            final(self).same_shape(*old(self)),
            final(self).wf(),
            final(self).at(row as int, col as int) == v as int,
            final(self).nrows == old(self).nrows,
            final(self).ncols == old(self).ncols,
            final(self).row_stride == old(self).row_stride,
            final(self).col_stride == old(self).col_stride,
    {
        let i = self.idx(row, col);
        self.values.set(i, v);
        proof {
            lemma_same_shape_wf(*old(self), *self);
        }
    }

    /// Reinterprets a mutable matrix as a read-only view of the same storage.
    pub fn to_ref(&self) -> (r: &MatBase)
        ensures
            r == self,
    {
        self
    }
}

/// A matrix of the same shape as a well-formed one is well-formed.
pub proof fn lemma_same_shape_wf(m1: MatBase, m2: MatBase)
    requires
        m1.wf(),
        m2.same_shape(m1),
    ensures
        m2.wf(),
{
    assert forall|r: int, c: int| m2.in_bounds_spec(r, c) implies 0 <= #[trigger] m2.index_of(
        r,
        c,
    ) < m2.values.len() by {
        assert(m1.in_bounds_spec(r, c));
        assert(m1.index_of(r, c) == m2.index_of(r, c));
        assert(m1.index_of(r, c) < m1.values.len());
    }
}

/// A matrix of the same shape as one with injective strides has injective
/// strides as well.
pub proof fn lemma_same_shape_injective(m1: MatBase, m2: MatBase)
    requires
        m1.injective_strides(),
        m2.same_shape(m1),
    ensures
        m2.injective_strides(),
{
    assert forall|r1: int, c1: int, r2: int, c2: int|
        m2.in_bounds_spec(r1, c1) && m2.in_bounds_spec(r2, c2) && (r1 != r2 || c1 != c2)
            implies #[trigger] m2.index_of(r1, c1) != #[trigger] m2.index_of(r2, c2) by {
        assert(m1.in_bounds_spec(r1, c1) && m1.in_bounds_spec(r2, c2));
        assert(m1.index_of(r1, c1) != m1.index_of(r2, c2));
        assert(m1.index_of(r1, c1) == m2.index_of(r1, c1));
        assert(m1.index_of(r2, c2) == m2.index_of(r2, c2));
    }
}

/// For a contiguous layout the last in-bounds offset is one short of the
/// buffer length `rows * cols`.
proof fn lemma_contiguous_last_index(rows: int, cols: int)
    requires
        rows >= 1,
        cols >= 1,
    ensures
        (rows - 1) * cols + (cols - 1) == rows * cols - 1,
{
    assert((rows - 1) * cols == rows * cols - cols) by (nonlinear_arith);
}

/// Row-major strides address distinct slots for distinct positions.
pub proof fn lemma_row_major_injective(m: MatBase)
    requires
        m.row_stride == m.ncols,
        m.col_stride == 1,
    ensures
        m.injective_strides(),
{
    assert forall|r1: int, c1: int, r2: int, c2: int|
        m.in_bounds_spec(r1, c1) && m.in_bounds_spec(r2, c2) && (r1 != r2 || c1 != c2)
            implies #[trigger] m.index_of(r1, c1) != #[trigger] m.index_of(r2, c2) by {
        if m.index_of(r1, c1) == m.index_of(r2, c2) {
            lemma_division_form_unique(r1, c1, r2, c2, m.ncols as int);
        }
    }
}

/// Column-major strides address distinct slots for distinct positions.
pub proof fn lemma_col_major_injective(m: MatBase)
    requires
        m.row_stride == 1,
        m.col_stride == m.nrows,
    ensures
        m.injective_strides(),
{
    assert forall|r1: int, c1: int, r2: int, c2: int|
        m.in_bounds_spec(r1, c1) && m.in_bounds_spec(r2, c2) && (r1 != r2 || c1 != c2)
            implies #[trigger] m.index_of(r1, c1) != #[trigger] m.index_of(r2, c2) by {
        if m.index_of(r1, c1) == m.index_of(r2, c2) {
            lemma_division_form_unique(c1, r1, c2, r2, m.nrows as int);
        }
    }
}

} // verus!
