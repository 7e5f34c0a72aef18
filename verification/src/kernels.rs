//! Portable scalar kernels: square register tiles of several fixed sizes,
//! all sharing one verified tile computation.

use vstd::prelude::*;
use crate::kernel::is_col_major_tile;
use crate::kernel::is_row_major_tile;
use crate::kernel::Kernel;
use crate::mat::lemma_col_major_injective;
use crate::mat::MatBase;
use crate::model::dot_limit;
use crate::model::dot_range;
use crate::model::grid;
use crate::model::lemma_bounded_step;
use crate::model::lemma_division_form_unique;
use crate::model::lemma_flat_index_bound;
use crate::model::lemma_mul_bounds;
use crate::model::ACCUM_LIMIT;
use crate::model::SCALAR_LIMIT;
use crate::packing::zeros;

verus! {

/// Sweeps the depth extent once, accumulating into `dim` column
/// accumulators: afterwards `cols[grid(c, r, dim)]` holds the dot product
/// of row `r` of `lhs` with column `c` of `rhs`.
#[verifier::loop_isolation(false)]
pub(crate) fn loop_micropanels(dim: usize, lhs: &MatBase, rhs: &MatBase, cols: &mut Vec<i64>)
    requires
        dim >= 1,
        lhs.wf(),
        rhs.wf(),
        is_col_major_tile(*lhs, dim as int, lhs.ncols as int),
        is_row_major_tile(*rhs, lhs.ncols as int, dim as int),
        lhs.ncols <= SCALAR_LIMIT,
        lhs.entries_bounded(SCALAR_LIMIT as int),
        rhs.entries_bounded(SCALAR_LIMIT as int),
        old(cols).len() == dim * dim,
        forall|i: int| 0 <= i < old(cols).len() ==> old(cols)@[i] == 0i64,
    ensures
        final(cols).len() == dim * dim,
        forall|cc: int, rr: int|
            0 <= cc < dim && 0 <= rr < dim ==> final(cols)@[#[trigger] grid(cc, rr, dim as int)]
                == dot_range(*lhs, *rhs, rr, cc, 0, lhs.ncols as int),
        forall|i: int| 0 <= i < final(cols).len() ==> -dot_limit() <= #[trigger] final(cols)@[i]
            <= dot_limit(),
{
    let kc = lhs.ncols();
    proof {
        assert forall|cc: int, rr: int| 0 <= cc < dim && 0 <= rr < dim implies cols@[
            #[trigger] grid(cc, rr, dim as int)] == dot_range(*lhs, *rhs, rr, cc, 0, 0) by {
            lemma_flat_index_bound(cc, rr, dim as int, dim as int);
        }
    }
    let mut p: usize = 0;
    while p < kc
        invariant
            p <= kc,
            cols.len() == dim * dim,
            forall|cc: int, rr: int|
                0 <= cc < dim && 0 <= rr < dim ==> cols@[#[trigger] grid(cc, rr, dim as int)]
                    == dot_range(*lhs, *rhs, rr, cc, 0, p as int),
            forall|i: int| 0 <= i < cols.len() ==> -dot_limit() <= #[trigger] cols@[i]
                <= dot_limit(),
        decreases kc - p,
    {
        let mut cc: usize = 0;
        while cc < dim
            invariant
                p < kc,
                cc <= dim,
                cols.len() == dim * dim,
                forall|c2: int, r2: int|
                    0 <= c2 < dim && 0 <= r2 < dim && c2 < cc ==> cols@[#[trigger] grid(
                        c2,
                        r2,
                        dim as int,
                    )] == dot_range(*lhs, *rhs, r2, c2, 0, p + 1),
                forall|c2: int, r2: int|
                    0 <= c2 < dim && 0 <= r2 < dim && c2 >= cc ==> cols@[#[trigger] grid(
                        c2,
                        r2,
                        dim as int,
                    )] == dot_range(*lhs, *rhs, r2, c2, 0, p as int),
                forall|i: int| 0 <= i < cols.len() ==> -dot_limit() <= #[trigger] cols@[i]
                    <= dot_limit(),
            decreases dim - cc,
        {
            let b_scalar = rhs.get(p, cc);
            let mut rr: usize = 0;
            while rr < dim
                invariant
                    p < kc,
                    cc < dim,
                    rr <= dim,
                    cols.len() == dim * dim,
                    b_scalar as int == rhs.at(p as int, cc as int),
                    forall|c2: int, r2: int|
                        0 <= c2 < dim && 0 <= r2 < dim && (c2 < cc || (c2 == cc && r2 < rr))
                            ==> cols@[#[trigger] grid(c2, r2, dim as int)] == dot_range(
                            *lhs,
                            *rhs,
                            r2,
                            c2,
                            0,
                            p + 1,
                        ),
                    forall|c2: int, r2: int|
                        0 <= c2 < dim && 0 <= r2 < dim && !(c2 < cc || (c2 == cc && r2 < rr))
                            ==> cols@[#[trigger] grid(c2, r2, dim as int)] == dot_range(
                            *lhs,
                            *rhs,
                            r2,
                            c2,
                            0,
                            p as int,
                        ),
                    forall|i: int| 0 <= i < cols.len() ==> -dot_limit() <= #[trigger] cols@[i]
                        <= dot_limit(),
                decreases dim - rr,
            {
                proof {
                    lemma_flat_index_bound(cc as int, rr as int, dim as int, dim as int);
                    assert(grid(cc as int, rr as int, dim as int) == cc * dim + rr);
                }
                let idx = cc * dim + rr;
                let cur = cols[idx];
                let a_scalar = lhs.get(rr, p);
                proof {
                    lemma_bounded_step(*lhs, *rhs, rr as int, cc as int, p as int);
                    assert(cur == cols@[grid(cc as int, rr as int, dim as int)]);
                }
                let v = cur + a_scalar * b_scalar;
                let ghost cols_prev = cols@;
                cols.set(idx, v);
                proof {
                    let ghost d = dim as int;
                    assert(cols@[grid(cc as int, rr as int, d)] == v);
                    assert(dot_range(*lhs, *rhs, rr as int, cc as int, 0, p + 1) == dot_range(
                        *lhs,
                        *rhs,
                        rr as int,
                        cc as int,
                        0,
                        p as int,
                    ) + lhs.at_or_zero(rr as int, p as int) * rhs.at_or_zero(p as int, cc as int));
                    assert(lhs.at_or_zero(rr as int, p as int) == lhs.at(rr as int, p as int));
                    assert(rhs.at_or_zero(p as int, cc as int) == rhs.at(p as int, cc as int));
                    assert forall|c2: int, r2: int|
                        0 <= c2 < dim && 0 <= r2 < dim && (c2 < cc || (c2 == cc && r2 < rr + 1))
                        implies cols@[#[trigger] grid(c2, r2, d)] == dot_range(
                        *lhs,
                        *rhs,
                        r2,
                        c2,
                        0,
                        p + 1,
                    ) by {
                        lemma_flat_index_bound(c2, r2, d, d);
                        if c2 != cc || r2 != rr {
                            if grid(c2, r2, d) == grid(cc as int, rr as int, d) {
                                lemma_division_form_unique(c2, r2, cc as int, rr as int, d);
                            }
                            assert(cols@[grid(c2, r2, d)] == cols_prev[grid(c2, r2, d)]);
                        }
                    }
                    assert forall|c2: int, r2: int|
                        0 <= c2 < dim && 0 <= r2 < dim && !(c2 < cc || (c2 == cc && r2 < rr + 1))
                        implies cols@[#[trigger] grid(c2, r2, d)] == dot_range(
                        *lhs,
                        *rhs,
                        r2,
                        c2,
                        0,
                        p as int,
                    ) by {
                        lemma_flat_index_bound(c2, r2, d, d);
                        if grid(c2, r2, d) == grid(cc as int, rr as int, d) {
                            lemma_division_form_unique(c2, r2, cc as int, rr as int, d);
                        }
                        assert(cols@[grid(c2, r2, d)] == cols_prev[grid(c2, r2, d)]);
                    }
                }
                rr += 1;
            }
            cc += 1;
        }
        p += 1;
    }
}

/// Combines the column accumulators with the destination tile:
/// `dst = alpha*cols + beta*dst`, element by element in column-major order.
#[verifier::loop_isolation(false)]
pub(crate) fn write_cols_to_colmajor(
    dim: usize,
    dst: &mut MatBase,
    cols: &Vec<i64>,
    alpha: i64,
    beta: i64,
)
    requires
        dim >= 1,
        old(dst).wf(),
        is_col_major_tile(*old(dst), dim as int, dim as int),
        cols.len() == dim * dim,
        -SCALAR_LIMIT <= alpha <= SCALAR_LIMIT,
        forall|i: int| 0 <= i < cols.len() ==> -dot_limit() <= #[trigger] cols@[i] <= dot_limit(),
        forall|r: int, c: int|
            old(dst).in_bounds_spec(r, c) ==> -ACCUM_LIMIT <= beta * #[trigger] old(dst).at(r, c)
                <= ACCUM_LIMIT,
    ensures
        final(dst).wf(),
        final(dst).same_shape(*old(dst)),
        forall|r: int, c: int|
            final(dst).in_bounds_spec(r, c) ==> #[trigger] final(dst).at(r, c) == alpha * cols@[grid(
                c,
                r,
                dim as int,
            )] + beta * old(dst).at(r, c),
{
    let mut cc: usize = 0;
    while cc < dim
        invariant
            cc <= dim,
            dst.wf(),
            dst.same_shape(*old(dst)),
            forall|r: int, c: int|
                dst.in_bounds_spec(r, c) && c < cc ==> #[trigger] dst.at(r, c) == alpha * cols@[grid(
                    c,
                    r,
                    dim as int,
                )] + beta * old(dst).at(r, c),
            forall|r: int, c: int|
                dst.in_bounds_spec(r, c) && c >= cc ==> #[trigger] dst.at(r, c) == old(dst).at(
                    r,
                    c,
                ),
        decreases dim - cc,
    {
        let mut rr: usize = 0;
        while rr < dim
            invariant
                cc < dim,
                rr <= dim,
                dst.wf(),
                dst.same_shape(*old(dst)),
                forall|r: int, c: int|
                    dst.in_bounds_spec(r, c) && (c < cc || (c == cc && r < rr)) ==> #[trigger] dst.at(
                        r,
                        c,
                    ) == alpha * cols@[grid(c, r, dim as int)] + beta * old(dst).at(r, c),
                forall|r: int, c: int|
                    dst.in_bounds_spec(r, c) && !(c < cc || (c == cc && r < rr)) ==> #[trigger] dst.at(
                        r,
                        c,
                    ) == old(dst).at(r, c),
            decreases dim - rr,
        {
            proof {
                lemma_flat_index_bound(cc as int, rr as int, dim as int, dim as int);
                assert(grid(cc as int, rr as int, dim as int) == cc * dim + rr);
            }
            let idx = cc * dim + rr;
            let d = dst.get(rr, cc);
            proof {
                lemma_mul_bounds(
                    alpha as int,
                    SCALAR_LIMIT as int,
                    cols@[idx as int] as int,
                    dot_limit(),
                );
                assert(dst.at(rr as int, cc as int) == old(dst).at(rr as int, cc as int));
                assert(-ACCUM_LIMIT <= beta * old(dst).at(rr as int, cc as int) <= ACCUM_LIMIT);
            }
            let v = alpha * cols[idx] + beta * d;
            let ghost prev = *dst;
            dst.set(rr, cc, v);
            proof {
                lemma_col_major_injective(prev);
                assert forall|r: int, c: int|
                    dst.in_bounds_spec(r, c) && (r != rr || c != cc) implies #[trigger] dst.at(
                    r,
                    c,
                ) == prev.at(r, c) by {
                    assert(prev.index_of(r, c) != prev.index_of(rr as int, cc as int));
                }
            }
            rr += 1;
        }
        cc += 1;
    }
}

/// Computes `dst = alpha*lhs*rhs + beta*dst` for a square `dim x dim`
/// register tile, via `dim` column accumulators swept over the depth.
pub(crate) fn square_microkernel(
    dim: usize,
    alpha: i64,
    lhs: &MatBase,
    rhs: &MatBase,
    beta: i64,
    dst: &mut MatBase,
)
    requires
        dim >= 1,
        lhs.wf(),
        rhs.wf(),
        old(dst).wf(),
        is_col_major_tile(*lhs, dim as int, lhs.ncols as int),
        is_row_major_tile(*rhs, lhs.ncols as int, dim as int),
        is_col_major_tile(*old(dst), dim as int, dim as int),
        lhs.ncols <= SCALAR_LIMIT,
        -SCALAR_LIMIT <= alpha <= SCALAR_LIMIT,
        lhs.entries_bounded(SCALAR_LIMIT as int),
        rhs.entries_bounded(SCALAR_LIMIT as int),
        forall|r: int, c: int|
            old(dst).in_bounds_spec(r, c) ==> -ACCUM_LIMIT <= beta * #[trigger] old(dst).at(r, c)
                <= ACCUM_LIMIT,
    ensures
        final(dst).wf(),
        final(dst).same_shape(*old(dst)),
        forall|r: int, c: int|
            final(dst).in_bounds_spec(r, c) ==> #[trigger] final(dst).at(r, c) == alpha
                * dot_range(*lhs, *rhs, r, c, 0, lhs.ncols as int) + beta * old(dst).at(r, c),
{
    proof {
        assert(old(dst).values.len() == dim * dim);
    }
    let mut cols = zeros(dim * dim);
    loop_micropanels(dim, lhs, rhs, &mut cols);
    write_cols_to_colmajor(dim, dst, &cols, alpha, beta);
    proof {
        assert forall|r: int, c: int| dst.in_bounds_spec(r, c) implies #[trigger] dst.at(r, c)
            == alpha * dot_range(*lhs, *rhs, r, c, 0, lhs.ncols as int) + beta * old(dst).at(
            r,
            c,
        ) by {
            assert(dst.at(r, c) == alpha * cols@[grid(c, r, dim as int)] + beta * old(dst).at(
                r,
                c,
            ));
            assert(cols@[grid(c, r, dim as int)] == dot_range(*lhs, *rhs, r, c, 0, lhs.ncols as int));
        }
    }
}

/// A portable scalar kernel with a square `DIM x DIM` register tile.
#[derive(Debug, Clone, Copy, Default)]
pub struct GenericSquareKernel<const DIM: usize>;

impl<const DIM: usize> GenericSquareKernel<DIM> {
    pub fn new() -> Self {
        GenericSquareKernel
    }
}

impl<const DIM: usize> GenericSquareKernel<DIM> where GenericSquareKernel<DIM>: Kernel {
    /// Full blocked GEMM entry point: `c = alpha*a*b + beta*c` through the
    /// loop nest, using this kernel for every register tile.
    pub fn gemm(
        &self,
        alpha: i64,
        a: &MatBase,
        b: &MatBase,
        beta: i64,
        c: &mut MatBase,
        pack_sizes: &crate::sizes::PackSizes,
        packing_buf: &mut Vec<i64>,
    )
        requires
            crate::gemm::gemm_valid_args(
                self.mr_spec(),
                self.nr_spec(),
                alpha as int,
                *a,
                *b,
                beta as int,
                *old(c),
                *pack_sizes,
                old(packing_buf).len() as int,
            ),
        ensures
            crate::gemm::gemm_post(alpha as int, *a, *b, beta as int, *old(c), *final(c)),
            *final(packing_buf) == *old(packing_buf),
    {
        crate::gemm::gemm_with_kernel(self, alpha, a, b, beta, c, pack_sizes, packing_buf)
    }
}

pub type Generic2x2Kernel = GenericSquareKernel<2>;

pub type Generic4x4Kernel = GenericSquareKernel<4>;

pub type Generic8x8Kernel = GenericSquareKernel<8>;

pub type Generic16x16Kernel = GenericSquareKernel<16>;

pub type Generic32x32Kernel = GenericSquareKernel<32>;

pub type GenericKernel2x2 = GenericSquareKernel<2>;

pub type GenericKernel4x4 = GenericSquareKernel<4>;

pub type GenericKernel8x8 = GenericSquareKernel<8>;

pub type GenericKernel16x16 = GenericSquareKernel<16>;

pub type GenericKernel32x32 = GenericSquareKernel<32>;

impl Kernel for GenericSquareKernel<2> {
    open spec fn mr_spec(&self) -> int {
        2
    }

    open spec fn nr_spec(&self) -> int {
        2
    }

    fn mr(&self) -> (r: usize) {
        2
    }

    fn nr(&self) -> (r: usize) {
        2
    }

    fn microkernel(&self, alpha: i64, lhs: &MatBase, rhs: &MatBase, beta: i64, dst: &mut MatBase) {
        square_microkernel(2, alpha, lhs, rhs, beta, dst);
    }

}

impl Kernel for GenericSquareKernel<4> {
    open spec fn mr_spec(&self) -> int {
        4
    }

    open spec fn nr_spec(&self) -> int {
        4
    }

    fn mr(&self) -> (r: usize) {
        4
    }

    fn nr(&self) -> (r: usize) {
        4
    }

    fn microkernel(&self, alpha: i64, lhs: &MatBase, rhs: &MatBase, beta: i64, dst: &mut MatBase) {
        square_microkernel(4, alpha, lhs, rhs, beta, dst);
    }

}

impl Kernel for GenericSquareKernel<8> {
    open spec fn mr_spec(&self) -> int {
        8
    }

    open spec fn nr_spec(&self) -> int {
        8
    }

    fn mr(&self) -> (r: usize) {
        8
    }

    fn nr(&self) -> (r: usize) {
        8
    }

    fn microkernel(&self, alpha: i64, lhs: &MatBase, rhs: &MatBase, beta: i64, dst: &mut MatBase) {
        square_microkernel(8, alpha, lhs, rhs, beta, dst);
    }

}

impl Kernel for GenericSquareKernel<16> {
    open spec fn mr_spec(&self) -> int {
        16
    }

    open spec fn nr_spec(&self) -> int {
        16
    }

    fn mr(&self) -> (r: usize) {
        16
    }

    fn nr(&self) -> (r: usize) {
        16
    }

    fn microkernel(&self, alpha: i64, lhs: &MatBase, rhs: &MatBase, beta: i64, dst: &mut MatBase) {
        square_microkernel(16, alpha, lhs, rhs, beta, dst);
    }

}

impl Kernel for GenericSquareKernel<32> {
    open spec fn mr_spec(&self) -> int {
        32
    }

    open spec fn nr_spec(&self) -> int {
        32
    }

    fn mr(&self) -> (r: usize) {
        32
    }

    fn nr(&self) -> (r: usize) {
        32
    }

    fn microkernel(&self, alpha: i64, lhs: &MatBase, rhs: &MatBase, beta: i64, dst: &mut MatBase) {
        square_microkernel(32, alpha, lhs, rhs, beta, dst);
    }

}

} // verus!
