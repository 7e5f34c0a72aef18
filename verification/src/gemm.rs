//! The blocked GEMM loop nest: five nested loops that pack cache-sized
//! panels of the inputs and dispatch one microkernel call per register
//! tile, accumulating depth blocks into the output with the
//! "beta becomes one after the first depth block" rule.

use vstd::prelude::*;
use vstd::arithmetic::mul::lemma_mul_inequality;
use vstd::arithmetic::mul::lemma_mul_is_commutative;
use vstd::arithmetic::mul::lemma_mul_is_distributive_add;
use vstd::arithmetic::mul::lemma_mul_nonnegative;
use crate::kernel::is_col_major_tile;
use crate::kernel::is_row_major_tile;
use crate::kernel::Kernel;
use crate::mat::MatBase;
use crate::model::dot_range;
use crate::model::grid;
use crate::model::grid3;
use crate::model::lemma_accum_bound;
use crate::model::lemma_at_or_zero_bounded;
use crate::model::lemma_dot_range_split;
use crate::model::lemma_flat_index_bound;
use crate::model::lemma_mul_bounds;
use crate::model::ACCUM_LIMIT;
use crate::model::DIM_LIMIT;
use crate::model::SCALAR_LIMIT;
use crate::packing::pack_a;
use crate::packing::pack_b;
use crate::packing::registers_from_c;
use crate::packing::registers_to_c;
use crate::packing::subvec;
use crate::packing::zeros;
use crate::sizes::PackSizes;

verus! {

/// The three matrices have the shapes of a product `c = a * b`.
pub open spec fn mats_compatible(a: MatBase, b: MatBase, c: MatBase) -> bool {
    &&& a.nrows == c.nrows
    &&& a.ncols == b.nrows
    &&& b.ncols == c.ncols
}

/// What the blocked computation asks of its inputs: well-formed views of
/// compatible shapes, an output with injective strides, extents within
/// `DIM_LIMIT`, and scalars, entries and depth within `SCALAR_LIMIT` so
/// that no intermediate value can overflow an `i64`.
pub open spec fn gemm_inputs_ok(
    alpha: int,
    a: MatBase,
    b: MatBase,
    beta: int,
    c: MatBase,
) -> bool {
    &&& a.wf()
    &&& b.wf()
    &&& c.wf()
    &&& c.injective_strides()
    &&& mats_compatible(a, b, c)
    &&& a.ncols <= SCALAR_LIMIT
    &&& c.nrows <= DIM_LIMIT
    &&& c.ncols <= DIM_LIMIT
    &&& -SCALAR_LIMIT <= alpha <= SCALAR_LIMIT
    &&& -SCALAR_LIMIT <= beta <= SCALAR_LIMIT
    &&& a.entries_bounded(SCALAR_LIMIT as int)
    &&& b.entries_bounded(SCALAR_LIMIT as int)
    &&& c.entries_bounded(SCALAR_LIMIT as int)
}

/// The full precondition of the blocked GEMM entry point, for a kernel
/// with register-tile sizes `mr` x `nr` and a scratch buffer of `buf_len`
/// elements.
pub open spec fn gemm_valid_args(
    mr: int,
    nr: int,
    alpha: int,
    a: MatBase,
    b: MatBase,
    beta: int,
    c: MatBase,
    ps: PackSizes,
    buf_len: int,
) -> bool {
    &&& gemm_inputs_ok(alpha, a, b, beta, c)
    &&& ps.valid_for(mr, nr)
    &&& ps.mc <= DIM_LIMIT
    &&& ps.kc <= DIM_LIMIT
    &&& ps.nc <= DIM_LIMIT
    &&& ps.buf_len_spec() <= usize::MAX
    &&& buf_len == ps.buf_len_spec()
}

/// The postcondition: every element of the output holds
/// `alpha * (row of a . column of b) + beta * (previous element)`.
pub open spec fn gemm_post(
    alpha: int,
    a: MatBase,
    b: MatBase,
    beta: int,
    c0: MatBase,
    c1: MatBase,
) -> bool {
    &&& c1.wf()
    &&& c1.same_shape(c0)
    &&& c1.injective_strides()
    &&& forall|i: int, j: int|
        c0.in_bounds_spec(i, j) ==> #[trigger] c1.at(i, j) == alpha * dot_range(
            a,
            b,
            i,
            j,
            0,
            a.ncols as int,
        ) + beta * c0.at(i, j)
}

/// The decidable part of a GEMM call's precondition: compatible shapes
/// with every extent at least one (in particular a depth `k >= 1`), a
/// descriptor satisfying the divisibility invariants, and a scratch buffer
/// of exactly the required length.
pub open spec fn gemm_shapes_ok(
    mr: int,
    nr: int,
    a: MatBase,
    b: MatBase,
    c: MatBase,
    ps: PackSizes,
    buf_len: int,
) -> bool {
    &&& mats_compatible(a, b, c)
    &&& a.nrows >= 1
    &&& a.ncols >= 1
    &&& b.ncols >= 1
    &&& ps.valid_for(mr, nr)
    &&& ps.buf_len_spec() <= usize::MAX
    &&& buf_len == ps.buf_len_spec()
}

/// Fail-fast validation at call entry: reports whether the shapes, the
/// blocking descriptor and the scratch length admit a GEMM call with a
/// kernel of register-tile sizes `mr` x `nr`. A degenerate depth (`k == 0`)
/// or a descriptor whose `mc` or `nc` is not a multiple of the kernel's
/// tile size is rejected here, before any packing or computation.
pub fn gemm_check_args(
    mr: usize,
    nr: usize,
    a: &MatBase,
    b: &MatBase,
    c: &MatBase,
    pack_sizes: &PackSizes,
    buf_len: usize,
) -> (r: bool)
    ensures
        r == gemm_shapes_ok(
            mr as int,
            nr as int,
            *a,
            *b,
            *c,
            *pack_sizes,
            buf_len as int,
        ),
{
    let shapes = a.nrows() == c.nrows() && a.ncols() == b.nrows() && b.ncols() == c.ncols()
        && a.nrows() >= 1 && a.ncols() >= 1 && b.ncols() >= 1;
    let descriptor = pack_sizes.check(mr, nr);
    let scratch = match pack_sizes.checked_buf_len() {
        Some(l) => l == buf_len,
        None => false,
    };
    shapes && descriptor && scratch
}

/// Every cell of the window `[r_lo, r_hi) x [c_lo, c_hi)` was updated to
/// `alpha * (dot product over the depth window) + beta2 * (old value)`.
pub open spec fn region_updated(
    alpha: int,
    a: MatBase,
    b: MatBase,
    beta2: int,
    c0: MatBase,
    c1: MatBase,
    r_lo: int,
    r_hi: int,
    c_lo: int,
    c_hi: int,
    p_lo: int,
    p_hi: int,
) -> bool {
    forall|i: int, j: int|
        c0.in_bounds_spec(i, j) && r_lo <= i < r_hi && c_lo <= j < c_hi ==> #[trigger] c1.at(i, j)
            == alpha * dot_range(a, b, i, j, p_lo, p_hi) + beta2 * c0.at(i, j)
}

/// Every cell outside the window `[r_lo, r_hi) x [c_lo, c_hi)` is
/// unchanged.
pub open spec fn same_outside_region(
    c0: MatBase,
    c1: MatBase,
    r_lo: int,
    r_hi: int,
    c_lo: int,
    c_hi: int,
) -> bool {
    forall|i: int, j: int|
        c0.in_bounds_spec(i, j) && !(r_lo <= i < r_hi && c_lo <= j < c_hi) ==> #[trigger] c1.at(
            i,
            j,
        ) == c0.at(i, j)
}

/// Multiplying any cell of the window by `beta2` stays within
/// `ACCUM_LIMIT`, so a microkernel may scale the loaded tile by `beta2`.
pub open spec fn region_scalable(
    beta2: int,
    c: MatBase,
    r_lo: int,
    r_hi: int,
    c_lo: int,
    c_hi: int,
) -> bool {
    forall|i: int, j: int|
        c.in_bounds_spec(i, j) && r_lo <= i < r_hi && c_lo <= j < c_hi ==> -ACCUM_LIMIT <= beta2
            * #[trigger] c.at(i, j) <= ACCUM_LIMIT
}

/// One register tile: loads the `mr x nr` tile of `c` at `(i0, j0)` into a
/// flat accumulator, runs the microkernel against the packed operands, and
/// scatters the result back, clipping to the bounds of `c`.
#[verifier::loop_isolation(false)]
fn gemm_tile<K: Kernel>(
    kernel: &K,
    alpha: i64,
    a: &MatBase,
    b: &MatBase,
    lhs: &MatBase,
    rhs: &MatBase,
    beta2: i64,
    c: &mut MatBase,
    i0: usize,
    j0: usize,
    pc: usize,
    kc_eff: usize,
)
    requires
        a.wf(),
        b.wf(),
        lhs.wf(),
        rhs.wf(),
        old(c).wf(),
        old(c).injective_strides(),
        a.entries_bounded(SCALAR_LIMIT as int),
        b.entries_bounded(SCALAR_LIMIT as int),
        -SCALAR_LIMIT <= alpha <= SCALAR_LIMIT,
        -SCALAR_LIMIT <= beta2 <= SCALAR_LIMIT,
        1 <= kc_eff <= SCALAR_LIMIT,
        pc <= SCALAR_LIMIT,
        i0 <= 2 * DIM_LIMIT,
        j0 <= 2 * DIM_LIMIT,
        1 <= lhs.nrows <= DIM_LIMIT,
        1 <= rhs.ncols <= DIM_LIMIT,
        is_col_major_tile(*lhs, kernel.mr_spec(), kc_eff as int),
        is_row_major_tile(*rhs, kc_eff as int, kernel.nr_spec()),
        forall|r: int, p: int|
            0 <= r < lhs.nrows && 0 <= p < kc_eff ==> #[trigger] lhs.at(r, p) == a.at_or_zero(
                i0 + r,
                pc + p,
            ),
        forall|p: int, q: int|
            0 <= p < kc_eff && 0 <= q < rhs.ncols ==> #[trigger] rhs.at(p, q) == b.at_or_zero(
                pc + p,
                j0 + q,
            ),
        region_scalable(
            beta2 as int,
            *old(c),
            i0 as int,
            i0 + lhs.nrows,
            j0 as int,
            j0 + rhs.ncols,
        ),
    ensures
        final(c).wf(),
        final(c).same_shape(*old(c)),
        final(c).injective_strides(),
        region_updated(
            alpha as int,
            *a,
            *b,
            beta2 as int,
            *old(c),
            *final(c),
            i0 as int,
            i0 + lhs.nrows,
            j0 as int,
            j0 + rhs.ncols,
            pc as int,
            pc + kc_eff,
        ),
        same_outside_region(
            *old(c),
            *final(c),
            i0 as int,
            i0 + lhs.nrows,
            j0 as int,
            j0 + rhs.ncols,
        ),
{
    let mr = lhs.nrows();
    let nr = rhs.ncols();
    proof {
        lemma_mul_nonnegative(mr as int, nr as int);
        assert(mr * nr <= DIM_LIMIT * DIM_LIMIT) by (nonlinear_arith)
            requires
                1 <= mr <= DIM_LIMIT,
                1 <= nr <= DIM_LIMIT,
        ;
    }
    let mut regs = zeros(mr * nr);
    registers_from_c(&mut regs, c, i0, i0 + mr, j0, j0 + nr);
    let dst_vals = regs;
    let mut dst = MatBase::col_major(mr, nr, dst_vals);
    proof {
        assert forall|ri: int, ci: int| dst.in_bounds_spec(ri, ci) implies #[trigger] dst.at(
            ri,
            ci,
        ) == c.at_or_zero(i0 + ri, j0 + ci) by {
            assert(grid(ci, ri, mr as int) == ci * mr + ri);
            assert(dst.at(ri, ci) == dst.values@[ri + ci * (mr as int)]);
        }
        assert(lhs.entries_bounded(SCALAR_LIMIT as int)) by {
            lemma_at_or_zero_bounded(*a, SCALAR_LIMIT as int);
            assert forall|r: int, p: int| lhs.in_bounds_spec(r, p) implies -SCALAR_LIMIT
                <= #[trigger] lhs.at(r, p) <= SCALAR_LIMIT by {
                assert(lhs.at(r, p) == a.at_or_zero(i0 + r, pc + p));
            }
        }
        assert(rhs.entries_bounded(SCALAR_LIMIT as int)) by {
            lemma_at_or_zero_bounded(*b, SCALAR_LIMIT as int);
            assert forall|p: int, q: int| rhs.in_bounds_spec(p, q) implies -SCALAR_LIMIT
                <= #[trigger] rhs.at(p, q) <= SCALAR_LIMIT by {
                assert(rhs.at(p, q) == b.at_or_zero(pc + p, j0 + q));
            }
        }
        assert forall|r: int, q: int| dst.in_bounds_spec(r, q) implies -ACCUM_LIMIT <= beta2
            * #[trigger] dst.at(r, q) <= ACCUM_LIMIT by {
            assert(dst.at(r, q) == c.at_or_zero(i0 + r, j0 + q));
            if c.in_bounds_spec(i0 + r, j0 + q) {
                assert(-ACCUM_LIMIT <= beta2 * c.at(i0 + r, j0 + q) <= ACCUM_LIMIT);
            }
        }
    }
    let ghost dst_before = dst;
    kernel.microkernel(alpha, lhs, rhs, beta2, &mut dst);
    registers_to_c(&dst.values, c, i0, i0 + mr, j0, j0 + nr);
    proof {
        assert forall|i: int, j: int|
            old(c).in_bounds_spec(i, j) && i0 <= i < i0 + mr && j0 <= j < j0 + nr
            implies #[trigger] c.at(i, j) == alpha * dot_range(*a, *b, i, j, pc as int, pc + kc_eff)
            + beta2 * old(c).at(i, j) by {
            let ri = i - i0;
            let ci = j - j0;
            assert(c.at(i, j) == dst.values@[grid(ci, ri, mr as int)]);
            assert(dst.at(ri, ci) == dst.values@[ri + ci * (mr as int)]);
            assert(grid(ci, ri, mr as int) == ci * mr + ri);
            assert(dst.at(ri, ci) == alpha * dot_range(*lhs, *rhs, ri, ci, 0, kc_eff as int)
                + beta2 * dst_before.at(ri, ci));
            assert(dst_before.at(ri, ci) == old(c).at_or_zero(i0 + ri, j0 + ci));
            assert(old(c).at_or_zero(i, j) == old(c).at(i, j));
            assert forall|p: int| 0 <= p < kc_eff implies #[trigger] lhs.at_or_zero(ri, p)
                == a.at_or_zero(i, pc + p) by {
                assert(lhs.in_bounds_spec(ri, p));
                assert(lhs.at(ri, p) == a.at_or_zero(i0 + ri, pc + p));
            }
            assert forall|p: int| 0 <= p < kc_eff implies #[trigger] rhs.at_or_zero(p, ci)
                == b.at_or_zero(pc + p, j) by {
                assert(rhs.in_bounds_spec(p, ci));
                assert(rhs.at(p, ci) == b.at_or_zero(pc + p, j0 + ci));
            }
            crate::model::lemma_dot_range_shift(
                *lhs,
                *rhs,
                *a,
                *b,
                ri,
                ci,
                i,
                j,
                pc as int,
                kc_eff as int,
            );
        }
    }
}

/// One row block at one tile column: sweeps the `mc / mr` packed sub-blocks
/// of the A-panel against one packed B sub-block, updating the tiles of `c`
/// at rows `ic..ic+mc`, columns `j0..j0+nr`.
#[verifier::loop_isolation(false)]
fn gemm_tile_row<K: Kernel>(
    kernel: &K,
    alpha: i64,
    a: &MatBase,
    b: &MatBase,
    apack: &Vec<i64>,
    rhs: &MatBase,
    beta2: i64,
    c: &mut MatBase,
    ic: usize,
    mc: usize,
    j0: usize,
    pc: usize,
    kc_eff: usize,
)
    requires
        a.wf(),
        b.wf(),
        rhs.wf(),
        old(c).wf(),
        old(c).injective_strides(),
        a.entries_bounded(SCALAR_LIMIT as int),
        b.entries_bounded(SCALAR_LIMIT as int),
        -SCALAR_LIMIT <= alpha <= SCALAR_LIMIT,
        -SCALAR_LIMIT <= beta2 <= SCALAR_LIMIT,
        1 <= kc_eff <= SCALAR_LIMIT,
        pc <= SCALAR_LIMIT,
        ic <= DIM_LIMIT,
        j0 <= 2 * DIM_LIMIT,
        1 <= mc <= DIM_LIMIT,
        1 <= kernel.mr_spec() <= mc,
        mc as int % kernel.mr_spec() == 0,
        1 <= rhs.ncols <= DIM_LIMIT,
        apack.len() == mc * kc_eff,
        forall|l: int, p: int, q: int|
            0 <= l < mc as int / kernel.mr_spec() && 0 <= p < kc_eff && 0 <= q < kernel.mr_spec()
                ==> apack@[#[trigger] grid3(l, p, q, kc_eff as int, kernel.mr_spec())]
                == a.at_or_zero(ic + l * kernel.mr_spec() + q, pc + p),
        is_row_major_tile(*rhs, kc_eff as int, kernel.nr_spec()),
        forall|p: int, q: int|
            0 <= p < kc_eff && 0 <= q < rhs.ncols ==> #[trigger] rhs.at(p, q) == b.at_or_zero(
                pc + p,
                j0 + q,
            ),
        region_scalable(beta2 as int, *old(c), ic as int, ic + mc, j0 as int, j0 + rhs.ncols),
    ensures
        final(c).wf(),
        final(c).same_shape(*old(c)),
        final(c).injective_strides(),
        region_updated(
            alpha as int,
            *a,
            *b,
            beta2 as int,
            *old(c),
            *final(c),
            ic as int,
            ic + mc,
            j0 as int,
            j0 + rhs.ncols,
            pc as int,
            pc + kc_eff,
        ),
        same_outside_region(*old(c), *final(c), ic as int, ic + mc, j0 as int, j0 + rhs.ncols),
{
    let mr = kernel.mr();
    let nblocks = mc / mr;
    proof {
        crate::packing::lemma_nblocks_times_block(mc as int, kc_eff as int, mr as int);
        lemma_mul_inequality(mr as int, mc as int, kc_eff as int);
    }
    let blk = mr * kc_eff;
    let mut l1: usize = 0;
    let mut ir: usize = 0;
    while l1 < nblocks
        invariant
            l1 <= nblocks,
            ir == l1 * mr,
            ir <= mc,
            c.wf(),
            c.same_shape(*old(c)),
            c.injective_strides(),
            region_updated(
                alpha as int,
                *a,
                *b,
                beta2 as int,
                *old(c),
                *c,
                ic as int,
                ic + ir,
                j0 as int,
                j0 + rhs.ncols,
                pc as int,
                pc + kc_eff,
            ),
            same_outside_region(*old(c), *c, ic as int, ic + ir, j0 as int, j0 + rhs.ncols),
        decreases nblocks - l1,
    {
        proof {
            lemma_mul_inequality(l1 + 1, nblocks as int, mr as int);
            lemma_mul_inequality(l1 + 1, nblocks as int, blk as int);
            assert((l1 + 1) * mr == l1 * mr + mr) by (nonlinear_arith);
            assert((l1 + 1) * blk == l1 * blk + blk) by (nonlinear_arith);
            lemma_mul_nonnegative(l1 as int, blk as int);
            lemma_mul_is_commutative(l1 as int, blk as int);
        }
        let off = blk * l1;
        let lhs_vals = subvec(apack, off, off + blk);
        let lhs = MatBase::col_major(mr, kc_eff, lhs_vals);
        proof {
            assert forall|q: int, p: int| 0 <= q < mr && 0 <= p < kc_eff implies #[trigger] lhs.at(
                q,
                p,
            ) == a.at_or_zero(ic + ir + q, pc + p) by {
                lemma_flat_index_bound(p, q, kc_eff as int, mr as int);
                assert(grid3(l1 as int, p, q, kc_eff as int, mr as int) == l1 * (mr * kc_eff) + p
                    * mr + q);
                assert(l1 * (mr * kc_eff) == off) by (nonlinear_arith)
                    requires
                        off == blk * l1,
                        blk == mr * kc_eff,
                ;
                assert(lhs.at(q, p) == lhs.values@[q + p * (mr as int)]);
                assert(lhs.values@[q + p * (mr as int)] == apack@[off + (p * mr + q)]);
                assert(apack@[grid3(l1 as int, p, q, kc_eff as int, mr as int)] == a.at_or_zero(
                    ic + l1 * mr + q,
                    pc + p,
                ));
            }
            assert(is_col_major_tile(lhs, kernel.mr_spec(), kc_eff as int));
            assert(region_scalable(
                beta2 as int,
                *c,
                (ic + ir) as int,
                ic + ir + mr,
                j0 as int,
                j0 + rhs.ncols,
            )) by {
                assert forall|i: int, j: int|
                    c.in_bounds_spec(i, j) && ic + ir <= i < ic + ir + mr && j0 <= j < j0
                        + rhs.ncols implies -ACCUM_LIMIT <= beta2 * #[trigger] c.at(i, j)
                    <= ACCUM_LIMIT by {
                    assert(old(c).in_bounds_spec(i, j));
                    assert(c.at(i, j) == old(c).at(i, j));
                }
            }
        }
        let ghost c_mid = *c;
        gemm_tile(kernel, alpha, a, b, &lhs, rhs, beta2, c, ic + ir, j0, pc, kc_eff);
        proof {
            assert forall|i: int, j: int|
                old(c).in_bounds_spec(i, j) && ic <= i < ic + ir + mr && j0 <= j < j0 + rhs.ncols
                implies #[trigger] c.at(i, j) == alpha * dot_range(
                *a,
                *b,
                i,
                j,
                pc as int,
                pc + kc_eff,
            ) + beta2 * old(c).at(i, j) by {
                if i < ic + ir {
                    assert(c.at(i, j) == c_mid.at(i, j));
                    assert(c_mid.at(i, j) == alpha * dot_range(*a, *b, i, j, pc as int, pc + kc_eff)
                        + beta2 * old(c).at(i, j));
                } else {
                    assert(c.at(i, j) == alpha * dot_range(*a, *b, i, j, pc as int, pc + kc_eff)
                        + beta2 * c_mid.at(i, j));
                    assert(c_mid.at(i, j) == old(c).at(i, j));
                }
            }
            assert forall|i: int, j: int|
                old(c).in_bounds_spec(i, j) && !(ic <= i < ic + ir + mr && j0 <= j < j0
                    + rhs.ncols) implies #[trigger] c.at(i, j) == old(c).at(i, j) by {
                assert(c.at(i, j) == c_mid.at(i, j));
                assert(c_mid.at(i, j) == old(c).at(i, j));
            }
        }
        ir += mr;
        l1 += 1;
    }
}

/// One row block across one column band: sweeps the `nc / nr` packed
/// sub-blocks of the B-panel against the packed A-panel, updating rows
/// `ic..ic+mc` of columns `jc..jc+nc` at one depth window.
#[verifier::loop_isolation(false)]
fn gemm_row_block<K: Kernel>(
    kernel: &K,
    alpha: i64,
    a: &MatBase,
    b: &MatBase,
    apack: &Vec<i64>,
    bpack: &Vec<i64>,
    beta2: i64,
    c: &mut MatBase,
    ic: usize,
    mc: usize,
    jc: usize,
    nc: usize,
    pc: usize,
    kc_eff: usize,
)
    requires
        a.wf(),
        b.wf(),
        old(c).wf(),
        old(c).injective_strides(),
        a.entries_bounded(SCALAR_LIMIT as int),
        b.entries_bounded(SCALAR_LIMIT as int),
        -SCALAR_LIMIT <= alpha <= SCALAR_LIMIT,
        -SCALAR_LIMIT <= beta2 <= SCALAR_LIMIT,
        1 <= kc_eff <= SCALAR_LIMIT,
        pc <= SCALAR_LIMIT,
        ic <= DIM_LIMIT,
        jc <= DIM_LIMIT,
        1 <= mc <= DIM_LIMIT,
        1 <= nc <= DIM_LIMIT,
        1 <= kernel.mr_spec() <= mc,
        mc as int % kernel.mr_spec() == 0,
        1 <= kernel.nr_spec() <= nc,
        nc as int % kernel.nr_spec() == 0,
        apack.len() == mc * kc_eff,
        bpack.len() == kc_eff * nc,
        forall|l: int, p: int, q: int|
            0 <= l < mc as int / kernel.mr_spec() && 0 <= p < kc_eff && 0 <= q < kernel.mr_spec()
                ==> apack@[#[trigger] grid3(l, p, q, kc_eff as int, kernel.mr_spec())]
                == a.at_or_zero(ic + l * kernel.mr_spec() + q, pc + p),
        forall|l: int, p: int, q: int|
            0 <= l < nc as int / kernel.nr_spec() && 0 <= p < kc_eff && 0 <= q < kernel.nr_spec()
                ==> bpack@[#[trigger] grid3(l, p, q, kc_eff as int, kernel.nr_spec())]
                == b.at_or_zero(pc + p, jc + l * kernel.nr_spec() + q),
        region_scalable(beta2 as int, *old(c), ic as int, ic + mc, jc as int, jc + nc),
    ensures
        final(c).wf(),
        final(c).same_shape(*old(c)),
        final(c).injective_strides(),
        region_updated(
            alpha as int,
            *a,
            *b,
            beta2 as int,
            *old(c),
            *final(c),
            ic as int,
            ic + mc,
            jc as int,
            jc + nc,
            pc as int,
            pc + kc_eff,
        ),
        same_outside_region(*old(c), *final(c), ic as int, ic + mc, jc as int, jc + nc),
{
    let nr = kernel.nr();
    let nblocks = nc / nr;
    proof {
        crate::packing::lemma_nblocks_times_block(nc as int, kc_eff as int, nr as int);
        lemma_mul_inequality(nr as int, nc as int, kc_eff as int);
        lemma_mul_is_commutative(kc_eff as int, nc as int);
        lemma_mul_is_commutative(nr as int, kc_eff as int);
    }
    let blk = kc_eff * nr;
    let mut l2: usize = 0;
    let mut jr: usize = 0;
    while l2 < nblocks
        invariant
            l2 <= nblocks,
            jr == l2 * nr,
            jr <= nc,
            c.wf(),
            c.same_shape(*old(c)),
            c.injective_strides(),
            region_updated(
                alpha as int,
                *a,
                *b,
                beta2 as int,
                *old(c),
                *c,
                ic as int,
                ic + mc,
                jc as int,
                jc + jr,
                pc as int,
                pc + kc_eff,
            ),
            same_outside_region(*old(c), *c, ic as int, ic + mc, jc as int, jc + jr),
        decreases nblocks - l2,
    {
        proof {
            lemma_mul_inequality(l2 + 1, nblocks as int, nr as int);
            lemma_mul_inequality(l2 + 1, nblocks as int, blk as int);
            assert((l2 + 1) * nr == l2 * nr + nr) by (nonlinear_arith);
            assert((l2 + 1) * blk == l2 * blk + blk) by (nonlinear_arith);
            lemma_mul_nonnegative(l2 as int, blk as int);
            lemma_mul_is_commutative(l2 as int, blk as int);
        }
        let off = blk * l2;
        let rhs_vals = subvec(bpack, off, off + blk);
        let rhs = MatBase::row_major(kc_eff, nr, rhs_vals);
        proof {
            assert forall|p: int, q: int| 0 <= p < kc_eff && 0 <= q < nr implies #[trigger] rhs.at(
                p,
                q,
            ) == b.at_or_zero(pc + p, jc + jr + q) by {
                lemma_flat_index_bound(p, q, kc_eff as int, nr as int);
                assert(grid3(l2 as int, p, q, kc_eff as int, nr as int) == l2 * ((nr as int) * (
                kc_eff as int)) + p * nr + q);
                assert(l2 * ((nr as int) * (kc_eff as int)) == off) by (nonlinear_arith)
                    requires
                        off == blk * l2,
                        blk == kc_eff * nr,
                ;
                assert(rhs.at(p, q) == rhs.values@[p * (nr as int) + q]);
                assert(rhs.values@[p * (nr as int) + q] == bpack@[off + (p * nr + q)]);
                assert(bpack@[grid3(l2 as int, p, q, kc_eff as int, nr as int)] == b.at_or_zero(
                    pc + p,
                    jc + l2 * nr + q,
                ));
            }
            assert(is_row_major_tile(rhs, kc_eff as int, kernel.nr_spec()));
            assert(region_scalable(
                beta2 as int,
                *c,
                ic as int,
                ic + mc,
                (jc + jr) as int,
                jc + jr + nr,
            )) by {
                assert forall|i: int, j: int|
                    c.in_bounds_spec(i, j) && ic <= i < ic + mc && jc + jr <= j < jc + jr + nr
                    implies -ACCUM_LIMIT <= beta2 * #[trigger] c.at(i, j) <= ACCUM_LIMIT by {
                    assert(old(c).in_bounds_spec(i, j));
                    assert(c.at(i, j) == old(c).at(i, j));
                }
            }
        }
        let ghost c_mid = *c;
        gemm_tile_row(kernel, alpha, a, b, apack, &rhs, beta2, c, ic, mc, jc + jr, pc, kc_eff);
        proof {
            assert forall|i: int, j: int|
                old(c).in_bounds_spec(i, j) && ic <= i < ic + mc && jc <= j < jc + jr + nr
                implies #[trigger] c.at(i, j) == alpha * dot_range(
                *a,
                *b,
                i,
                j,
                pc as int,
                pc + kc_eff,
            ) + beta2 * old(c).at(i, j) by {
                if j < jc + jr {
                    assert(c.at(i, j) == c_mid.at(i, j));
                    assert(c_mid.at(i, j) == alpha * dot_range(*a, *b, i, j, pc as int, pc + kc_eff)
                        + beta2 * old(c).at(i, j));
                } else {
                    assert(c.at(i, j) == alpha * dot_range(*a, *b, i, j, pc as int, pc + kc_eff)
                        + beta2 * c_mid.at(i, j));
                    assert(c_mid.at(i, j) == old(c).at(i, j));
                }
            }
            assert forall|i: int, j: int|
                old(c).in_bounds_spec(i, j) && !(ic <= i < ic + mc && jc <= j < jc + jr + nr)
                implies #[trigger] c.at(i, j) == old(c).at(i, j) by {
                assert(c.at(i, j) == c_mid.at(i, j));
                assert(c_mid.at(i, j) == old(c).at(i, j));
            }
        }
        jr += nr;
        l2 += 1;
    }
}

/// One depth block for one column band: packs the B-panel once, then packs
/// an A-panel per row block, updating the whole band at this depth window
/// while scaling the band's previous contents by `beta2`.
#[verifier::loop_isolation(false)]
fn gemm_depth_block<K: Kernel>(
    kernel: &K,
    alpha: i64,
    a: &MatBase,
    b: &MatBase,
    beta2: i64,
    c: &mut MatBase,
    jc: usize,
    pc: usize,
    kc_eff: usize,
    pack_sizes: &PackSizes,
    apack: &mut Vec<i64>,
    bpack: &mut Vec<i64>,
)
    requires
        a.wf(),
        b.wf(),
        old(c).wf(),
        old(c).injective_strides(),
        mats_compatible(*a, *b, *old(c)),
        a.entries_bounded(SCALAR_LIMIT as int),
        b.entries_bounded(SCALAR_LIMIT as int),
        -SCALAR_LIMIT <= alpha <= SCALAR_LIMIT,
        -SCALAR_LIMIT <= beta2 <= SCALAR_LIMIT,
        a.ncols <= SCALAR_LIMIT,
        old(c).nrows <= DIM_LIMIT,
        old(c).ncols <= DIM_LIMIT,
        pack_sizes.valid_for(kernel.mr_spec(), kernel.nr_spec()),
        pack_sizes.mc <= DIM_LIMIT,
        pack_sizes.kc <= DIM_LIMIT,
        pack_sizes.nc <= DIM_LIMIT,
        pack_sizes.buf_len_spec() <= usize::MAX,
        jc <= DIM_LIMIT,
        pc + kc_eff <= a.ncols,
        1 <= kc_eff <= pack_sizes.kc,
        region_scalable(
            beta2 as int,
            *old(c),
            0,
            old(c).nrows as int,
            jc as int,
            jc + pack_sizes.nc,
        ),
    ensures
        final(c).wf(),
        final(c).same_shape(*old(c)),
        final(c).injective_strides(),
        region_updated(
            alpha as int,
            *a,
            *b,
            beta2 as int,
            *old(c),
            *final(c),
            0,
            old(c).nrows as int,
            jc as int,
            jc + pack_sizes.nc,
            pc as int,
            pc + kc_eff,
        ),
        same_outside_region(
            *old(c),
            *final(c),
            0,
            old(c).nrows as int,
            jc as int,
            jc + pack_sizes.nc,
        ),
{
    let m = a.nrows();
    let mc = pack_sizes.mc;
    let nc = pack_sizes.nc;
    let mr = kernel.mr();
    let nr = kernel.nr();
    proof {
        lemma_mul_inequality(kc_eff as int, pack_sizes.kc as int, nc as int);
        lemma_mul_nonnegative(mc as int, pack_sizes.kc as int);
        lemma_mul_is_commutative(kc_eff as int, nc as int);
    }
    pack_b(nr, bpack, b, pc, pc + kc_eff, jc, jc + nc);
    let mut ic: usize = 0;
    while ic < m
        invariant
            ic <= m,
            c.wf(),
            c.same_shape(*old(c)),
            c.injective_strides(),
            bpack.len() == kc_eff * nc,
            forall|l: int, p: int, q: int|
                0 <= l < nc as int / kernel.nr_spec() && 0 <= p < kc_eff && 0 <= q
                    < kernel.nr_spec() ==> bpack@[#[trigger] grid3(
                    l,
                    p,
                    q,
                    kc_eff as int,
                    kernel.nr_spec(),
                )] == b.at_or_zero(pc + p, jc + l * kernel.nr_spec() + q),
            region_updated(
                alpha as int,
                *a,
                *b,
                beta2 as int,
                *old(c),
                *c,
                0,
                ic as int,
                jc as int,
                jc + nc,
                pc as int,
                pc + kc_eff,
            ),
            same_outside_region(*old(c), *c, 0, ic as int, jc as int, jc + nc),
        decreases m - ic,
    {
        proof {
            lemma_mul_inequality(kc_eff as int, pack_sizes.kc as int, mc as int);
            lemma_mul_is_commutative(kc_eff as int, mc as int);
            lemma_mul_is_commutative(pack_sizes.kc as int, mc as int);
            lemma_mul_nonnegative(pack_sizes.kc as int, nc as int);
        }
        pack_a(mr, apack, a, ic, ic + mc, pc, pc + kc_eff);
        proof {
            assert(region_scalable(beta2 as int, *c, ic as int, ic + mc, jc as int, jc + nc)) by {
                assert forall|i: int, j: int|
                    c.in_bounds_spec(i, j) && ic <= i < ic + mc && jc <= j < jc + nc
                    implies -ACCUM_LIMIT <= beta2 * #[trigger] c.at(i, j) <= ACCUM_LIMIT by {
                    assert(old(c).in_bounds_spec(i, j));
                    assert(c.at(i, j) == old(c).at(i, j));
                }
            }
        }
        let ghost c_mid = *c;
        gemm_row_block(kernel, alpha, a, b, apack, bpack, beta2, c, ic, mc, jc, nc, pc, kc_eff);
        proof {
            assert forall|i: int, j: int|
                old(c).in_bounds_spec(i, j) && 0 <= i < ic + mc && jc <= j < jc + nc
                implies #[trigger] c.at(i, j) == alpha * dot_range(
                *a,
                *b,
                i,
                j,
                pc as int,
                pc + kc_eff,
            ) + beta2 * old(c).at(i, j) by {
                if i < ic {
                    assert(c.at(i, j) == c_mid.at(i, j));
                    assert(c_mid.at(i, j) == alpha * dot_range(*a, *b, i, j, pc as int, pc + kc_eff)
                        + beta2 * old(c).at(i, j));
                } else {
                    assert(c.at(i, j) == alpha * dot_range(*a, *b, i, j, pc as int, pc + kc_eff)
                        + beta2 * c_mid.at(i, j));
                    assert(c_mid.at(i, j) == old(c).at(i, j));
                }
            }
            assert forall|i: int, j: int|
                old(c).in_bounds_spec(i, j) && !(0 <= i < ic + mc && jc <= j < jc + nc)
                implies #[trigger] c.at(i, j) == old(c).at(i, j) by {
                assert(c.at(i, j) == c_mid.at(i, j));
                assert(c_mid.at(i, j) == old(c).at(i, j));
            }
        }
        ic = if mc < m - ic {
            ic + mc
        } else {
            m
        };
    }
}

/// One column band: runs every depth block over columns `jc..jc+nc`. The
/// first depth block scales the band by `beta`; later blocks accumulate
/// with a beta of one, so the band is scaled exactly once overall.
#[verifier::loop_isolation(false)]
fn gemm_col_band<K: Kernel>(
    kernel: &K,
    alpha: i64,
    a: &MatBase,
    b: &MatBase,
    beta: i64,
    c: &mut MatBase,
    jc: usize,
    pack_sizes: &PackSizes,
    apack: &mut Vec<i64>,
    bpack: &mut Vec<i64>,
)
    requires
        a.wf(),
        b.wf(),
        old(c).wf(),
        old(c).injective_strides(),
        mats_compatible(*a, *b, *old(c)),
        a.entries_bounded(SCALAR_LIMIT as int),
        b.entries_bounded(SCALAR_LIMIT as int),
        -SCALAR_LIMIT <= alpha <= SCALAR_LIMIT,
        -SCALAR_LIMIT <= beta <= SCALAR_LIMIT,
        a.ncols <= SCALAR_LIMIT,
        old(c).nrows <= DIM_LIMIT,
        old(c).ncols <= DIM_LIMIT,
        pack_sizes.valid_for(kernel.mr_spec(), kernel.nr_spec()),
        pack_sizes.mc <= DIM_LIMIT,
        pack_sizes.kc <= DIM_LIMIT,
        pack_sizes.nc <= DIM_LIMIT,
        pack_sizes.buf_len_spec() <= usize::MAX,
        jc <= DIM_LIMIT,
        forall|i: int, j: int|
            old(c).in_bounds_spec(i, j) && jc <= j < jc + pack_sizes.nc ==> -SCALAR_LIMIT
                <= #[trigger] old(c).at(i, j) <= SCALAR_LIMIT,
    ensures
        final(c).wf(),
        final(c).same_shape(*old(c)),
        final(c).injective_strides(),
        forall|i: int, j: int|
            old(c).in_bounds_spec(i, j) && jc <= j < jc + pack_sizes.nc ==> #[trigger] final(c).at(i, j) == alpha * dot_range(*a, *b, i, j, 0, a.ncols as int) + beta * old(c).at(
                i,
                j,
            ),
        same_outside_region(
            *old(c),
            *final(c),
            0,
            old(c).nrows as int,
            jc as int,
            jc + pack_sizes.nc,
        ),
{
    let k = a.ncols();
    let kcs = pack_sizes.kc;
    let ghost m_int = old(c).nrows as int;
    let ghost nc_int = pack_sizes.nc as int;
    let mut pc: usize = 0;
    while pc < k
        invariant
            pc <= k,
            c.wf(),
            c.same_shape(*old(c)),
            c.injective_strides(),
            pc == 0 ==> forall|i: int, j: int|
                old(c).in_bounds_spec(i, j) && jc <= j < jc + pack_sizes.nc ==> #[trigger] c.at(
                    i,
                    j,
                ) == old(c).at(i, j),
            pc > 0 ==> forall|i: int, j: int|
                old(c).in_bounds_spec(i, j) && jc <= j < jc + pack_sizes.nc ==> #[trigger] c.at(
                    i,
                    j,
                ) == alpha * dot_range(*a, *b, i, j, 0, pc as int) + beta * old(c).at(i, j),
            same_outside_region(*old(c), *c, 0, m_int, jc as int, jc + pack_sizes.nc),
        decreases k - pc,
    {
        let kc_eff = if kcs < k - pc {
            kcs
        } else {
            k - pc
        };
        let beta2: i64 = if pc == 0 {
            beta
        } else {
            1
        };
        proof {
            assert(region_scalable(beta2 as int, *c, 0, m_int, jc as int, jc + pack_sizes.nc))
                by {
                assert forall|i: int, j: int|
                    c.in_bounds_spec(i, j) && 0 <= i < m_int && jc <= j < jc + pack_sizes.nc
                    implies -ACCUM_LIMIT <= beta2 * #[trigger] c.at(i, j) <= ACCUM_LIMIT by {
                    assert(old(c).in_bounds_spec(i, j));
                    if pc == 0 {
                        assert(c.at(i, j) == old(c).at(i, j));
                        lemma_mul_bounds(
                            beta2 as int,
                            SCALAR_LIMIT as int,
                            c.at(i, j),
                            SCALAR_LIMIT as int,
                        );
                    } else {
                        assert(c.at(i, j) == alpha * dot_range(*a, *b, i, j, 0, pc as int) + beta
                            * old(c).at(i, j));
                        lemma_accum_bound(
                            *a,
                            *b,
                            alpha as int,
                            beta as int,
                            i,
                            j,
                            pc as int,
                            old(c).at(i, j),
                        );
                    }
                }
            }
        }
        let ghost c_mid = *c;
        let ghost pc_before = pc as int;
        gemm_depth_block(kernel, alpha, a, b, beta2, c, jc, pc, kc_eff, pack_sizes, apack, bpack);
        proof {
            assert forall|i: int, j: int|
                old(c).in_bounds_spec(i, j) && jc <= j < jc + pack_sizes.nc implies #[trigger] c.at(
                i,
                j,
            ) == alpha * dot_range(*a, *b, i, j, 0, pc_before + kc_eff) + beta * old(c).at(
                i,
                j,
            ) by {
                assert(0 <= i < m_int);
                assert(c.at(i, j) == alpha * dot_range(*a, *b, i, j, pc_before, pc_before + kc_eff)
                    + beta2 * c_mid.at(i, j));
                if pc_before == 0 {
                    assert(c_mid.at(i, j) == old(c).at(i, j));
                } else {
                    assert(c_mid.at(i, j) == alpha * dot_range(*a, *b, i, j, 0, pc_before) + beta
                        * old(c).at(i, j));
                    lemma_dot_range_split(*a, *b, i, j, 0, pc_before, pc_before + kc_eff);
                    lemma_mul_is_distributive_add(
                        alpha as int,
                        dot_range(*a, *b, i, j, 0, pc_before),
                        dot_range(*a, *b, i, j, pc_before, pc_before + kc_eff),
                    );
                }
            }
            assert forall|i: int, j: int|
                old(c).in_bounds_spec(i, j) && !(0 <= i < m_int && jc <= j < jc + pack_sizes.nc)
                implies #[trigger] c.at(i, j) == old(c).at(i, j) by {
                assert(c.at(i, j) == c_mid.at(i, j));
                assert(c_mid.at(i, j) == old(c).at(i, j));
            }
        }
        pc = pc + kc_eff;
    }
}

/// The blocked GEMM loop nest: computes `c = alpha*a*b + beta*c` with the
/// given kernel, blocking descriptor and caller-supplied scratch buffer.
#[verifier::loop_isolation(false)]
pub fn gemm_with_kernel<K: Kernel>(
    kernel: &K,
    alpha: i64,
    a: &MatBase,
    b: &MatBase,
    beta: i64,
    c: &mut MatBase,
    pack_sizes: &PackSizes,
    packing_buf: &mut Vec<i64>,
)
    requires
        gemm_valid_args(
            kernel.mr_spec(),
            kernel.nr_spec(),
            alpha as int,
            *a,
            *b,
            beta as int,
            *old(c),
            *pack_sizes,
            old(packing_buf).len() as int,
        ),
    ensures
        gemm_post(alpha as int, *a, *b, beta as int, *old(c), *final(c)),
        *final(packing_buf) == *old(packing_buf),
{
    let n = b.ncols();
    let k = a.ncols();
    let nc = pack_sizes.nc;
    let (mut apack, mut bpack) = pack_sizes.split_buf(packing_buf);
    let mut jc: usize = 0;
    while jc < n
        invariant
            jc <= n,
            c.wf(),
            c.same_shape(*old(c)),
            c.injective_strides(),
            forall|i: int, j: int|
                old(c).in_bounds_spec(i, j) && j < jc ==> #[trigger] c.at(i, j) == alpha
                    * dot_range(*a, *b, i, j, 0, k as int) + beta * old(c).at(i, j),
            forall|i: int, j: int|
                old(c).in_bounds_spec(i, j) && j >= jc ==> #[trigger] c.at(i, j) == old(c).at(
                    i,
                    j,
                ),
        decreases n - jc,
    {
        proof {
            assert forall|i: int, j: int|
                old(c).in_bounds_spec(i, j) && jc <= j < jc + pack_sizes.nc implies -SCALAR_LIMIT
                <= #[trigger] c.at(i, j) <= SCALAR_LIMIT by {
                assert(c.at(i, j) == old(c).at(i, j));
                assert(-SCALAR_LIMIT <= old(c).at(i, j) <= SCALAR_LIMIT);
            }
        }
        let ghost c_mid = *c;
        gemm_col_band(kernel, alpha, a, b, beta, c, jc, pack_sizes, &mut apack, &mut bpack);
        proof {
            assert forall|i: int, j: int|
                old(c).in_bounds_spec(i, j) && j < jc + nc implies #[trigger] c.at(i, j) == alpha
                * dot_range(*a, *b, i, j, 0, k as int) + beta * old(c).at(i, j) by {
                if j < jc {
                    assert(c.at(i, j) == c_mid.at(i, j));
                    assert(c_mid.at(i, j) == alpha * dot_range(*a, *b, i, j, 0, k as int) + beta
                        * old(c).at(i, j));
                } else {
                    assert(c.at(i, j) == alpha * dot_range(*a, *b, i, j, 0, k as int) + beta
                        * c_mid.at(i, j));
                    assert(c_mid.at(i, j) == old(c).at(i, j));
                }
            }
            assert forall|i: int, j: int|
                old(c).in_bounds_spec(i, j) && j >= jc + nc implies #[trigger] c.at(i, j) == old(c).at(i, j) by {
                assert(c.at(i, j) == c_mid.at(i, j));
                assert(c_mid.at(i, j) == old(c).at(i, j));
            }
        }
        jc = if nc < n - jc {
            jc + nc
        } else {
            n
        };
    }
}

} // verus!
