//! The contract every computational backend implements: two register-tile
//! extents and one operation that computes `dst = alpha*lhs*rhs + beta*dst`
//! on exactly an MR x NR tile.

use vstd::prelude::*;
use crate::mat::MatBase;
use crate::model::dot_range;
use crate::model::ACCUM_LIMIT;
use crate::model::SCALAR_LIMIT;

verus! {

/// A contiguously stored column-major tile: unit row stride, the column
/// stride equal to the row count.
pub open spec fn is_col_major_tile(m: MatBase, rows: int, cols: int) -> bool {
    &&& m.nrows == rows
    &&& m.ncols == cols
    &&& m.row_stride == 1
    &&& m.col_stride == rows
    &&& m.values.len() == rows * cols
}

/// A contiguously stored row-major tile: unit column stride, the row
/// stride equal to the column count.
pub open spec fn is_row_major_tile(m: MatBase, rows: int, cols: int) -> bool {
    &&& m.nrows == rows
    &&& m.ncols == cols
    &&& m.row_stride == cols
    &&& m.col_stride == 1
    &&& m.values.len() == rows * cols
}

/// A stateless microkernel strategy: two register-tile extents MR and NR,
/// and one operation computing `dst = alpha*lhs*rhs + beta*dst` on an
/// MR x NR tile. `lhs` is a column-major MR x kc tile, `rhs` a row-major
/// kc x NR tile, `dst` a column-major MR x NR tile.
pub trait Kernel: Sized {
    /// Number of rows of the register tile.
    spec fn mr_spec(&self) -> int;

    /// Number of columns of the register tile.
    spec fn nr_spec(&self) -> int;

    fn mr(&self) -> (r: usize)
        ensures
            r as int == self.mr_spec(),
            r >= 1,
    ;

    fn nr(&self) -> (r: usize)
        ensures
            r as int == self.nr_spec(),
            r >= 1,
    ;

    /// Computes `dst = alpha*lhs*rhs + beta*dst` over the shared depth
    /// extent `lhs.ncols == rhs.nrows`.
    fn microkernel(&self, alpha: i64, lhs: &MatBase, rhs: &MatBase, beta: i64, dst: &mut MatBase)
        requires
            lhs.wf(),
            rhs.wf(),
            old(dst).wf(),
            is_col_major_tile(*lhs, self.mr_spec(), lhs.ncols as int),
            is_row_major_tile(*rhs, lhs.ncols as int, self.nr_spec()),
            is_col_major_tile(*old(dst), self.mr_spec(), self.nr_spec()),
            lhs.ncols <= SCALAR_LIMIT,
            -SCALAR_LIMIT <= alpha <= SCALAR_LIMIT,
            lhs.entries_bounded(SCALAR_LIMIT as int),
            rhs.entries_bounded(SCALAR_LIMIT as int),
            forall|r: int, c: int|
                old(dst).in_bounds_spec(r, c) ==> -ACCUM_LIMIT <= beta * #[trigger] old(dst).at(
                    r,
                    c,
                ) <= ACCUM_LIMIT,
        ensures
            final(dst).wf(),
            final(dst).same_shape(*old(dst)),
            forall|r: int, c: int|
                final(dst).in_bounds_spec(r, c) ==> #[trigger] final(dst).at(r, c) == alpha
                    * dot_range(*lhs, *rhs, r, c, 0, lhs.ncols as int) + beta * old(dst).at(r, c),
    ;
}

} // verus!
