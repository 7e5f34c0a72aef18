//! The mathematical model shared by the contracts: the dot product of a row
//! of one matrix with a column of another, and the magnitude limits under
//! which every intermediate of the blocked computation fits in an `i64`.

use vstd::prelude::*;
use vstd::arithmetic::mul::lemma_mul_inequality;
use crate::mat::MatBase;

verus! {

/// Largest magnitude accepted for the scalars `alpha` and `beta`, for the
/// entries of the three matrices, and for the depth extent `k`. Keeping all
/// of them within this limit keeps every intermediate value of the blocked
/// computation within `i64` range.
pub const SCALAR_LIMIT: i64 = 16384;

/// Magnitude bound for the values that the output matrix holds between two
/// depth-block passes: `SCALAR_LIMIT^4 + SCALAR_LIMIT^2`, which covers
/// `alpha * dot + beta * c` for inputs within `SCALAR_LIMIT`.
pub const ACCUM_LIMIT: i64 = 16384 * 16384 * 16384 * 16384 + 16384 * 16384;

/// Largest matrix or blocking extent, so that index arithmetic on `usize`
/// cannot overflow.
pub const DIM_LIMIT: usize = 32768;

/// Magnitude bound for a full dot product over at most `SCALAR_LIMIT`
/// terms, each a product of two scalars within `SCALAR_LIMIT`.
pub open spec fn dot_limit() -> int {
    (SCALAR_LIMIT as int) * (SCALAR_LIMIT as int) * (SCALAR_LIMIT as int)
}

/// Flat position of minor index `q` inside major slot `p`, where each major
/// slot holds `minor` entries.
pub open spec fn grid(p: int, q: int, minor: int) -> int {
    p * minor + q
}

/// Flat position inside a packed panel: sub-block `l`, depth position `p`,
/// minor position `q`, where a sub-block holds `depth` runs of `minor`
/// entries each.
pub open spec fn grid3(l: int, p: int, q: int, depth: int, minor: int) -> int {
    l * (minor * depth) + p * minor + q
}

/// Partial dot product of row `i` of `a` with column `j` of `b`, over the
/// depth positions `lo <= p < hi`. Positions outside either matrix
/// contribute zero.
pub open spec fn dot_range(a: MatBase, b: MatBase, i: int, j: int, lo: int, hi: int) -> int
    decreases hi - lo,
{
    if hi <= lo {
        0
    } else {
        dot_range(a, b, i, j, lo, hi - 1) + a.at_or_zero(i, hi - 1) * b.at_or_zero(hi - 1, j)
    }
}

/// A dot product over `lo..hi` splits at any point in between.
pub proof fn lemma_dot_range_split(a: MatBase, b: MatBase, i: int, j: int, lo: int, mid: int, hi: int)
    requires
        lo <= mid <= hi,
    ensures
        dot_range(a, b, i, j, lo, hi) == dot_range(a, b, i, j, lo, mid) + dot_range(
            a,
            b,
            i,
            j,
            mid,
            hi,
        ),
    decreases hi - mid,
{
    if hi <= mid {
    } else {
        lemma_dot_range_split(a, b, i, j, lo, mid, hi - 1);
    }
}

/// Two pairs of matrices that agree pointwise on a depth window, up to an
/// offset, have the same dot product over that window.
pub proof fn lemma_dot_range_shift(
    lhs: MatBase,
    rhs: MatBase,
    a: MatBase,
    b: MatBase,
    r: int,
    c: int,
    i: int,
    j: int,
    off: int,
    len: int,
)
    requires
        forall|p: int|
            0 <= p < len ==> #[trigger] lhs.at_or_zero(r, p) == a.at_or_zero(i, off + p),
        forall|p: int|
            0 <= p < len ==> #[trigger] rhs.at_or_zero(p, c) == b.at_or_zero(off + p, j),
    ensures
        dot_range(lhs, rhs, r, c, 0, len) == dot_range(a, b, i, j, off, off + len),
    decreases len,
{
    if len <= 0 {
    } else {
        lemma_dot_range_shift(lhs, rhs, a, b, r, c, i, j, off, len - 1);
        assert(lhs.at_or_zero(r, len - 1) == a.at_or_zero(i, off + len - 1));
        assert(rhs.at_or_zero(len - 1, c) == b.at_or_zero(off + len - 1, j));
    }
}

/// A dot product over a window of length `hi - lo` with entries bounded by
/// `bound` has magnitude at most `(hi - lo) * bound * bound`.
pub proof fn lemma_dot_range_bound(
    a: MatBase,
    b: MatBase,
    i: int,
    j: int,
    lo: int,
    hi: int,
    bound: int,
)
    requires
        lo <= hi,
        bound >= 0,
        forall|p: int| lo <= p < hi ==> -bound <= #[trigger] a.at_or_zero(i, p) <= bound,
        forall|p: int| lo <= p < hi ==> -bound <= #[trigger] b.at_or_zero(p, j) <= bound,
    ensures
        -(hi - lo) * (bound * bound) <= dot_range(a, b, i, j, lo, hi) <= (hi - lo) * (bound
            * bound),
    decreases hi - lo,
{
    if hi <= lo {
    } else {
        lemma_dot_range_bound(a, b, i, j, lo, hi - 1, bound);
        lemma_mul_bounds(a.at_or_zero(i, hi - 1), bound, b.at_or_zero(hi - 1, j), bound);
        assert((hi - lo) * (bound * bound) == (hi - 1 - lo) * (bound * bound) + bound * bound)
            by (nonlinear_arith);
        assert(-(hi - lo) * (bound * bound) == -(hi - 1 - lo) * (bound * bound) - bound * bound)
            by (nonlinear_arith);
    }
}

/// The product of two values bounded in magnitude is bounded by the product
/// of the bounds.
pub proof fn lemma_mul_bounds(x: int, bx: int, y: int, by_: int)
    requires
        -bx <= x <= bx,
        -by_ <= y <= by_,
    ensures
        -(bx * by_) <= x * y <= bx * by_,
{
    assert(-(bx * by_) <= x * y <= bx * by_) by (nonlinear_arith)
        requires
            -bx <= x <= bx,
            -by_ <= y <= by_,
    ;
}

/// The arithmetic facts needed to add one product into a column
/// accumulator without overflow: the running value is a bounded partial
/// dot product and the new product is bounded by `SCALAR_LIMIT^2`.
pub proof fn lemma_bounded_step(lhs: MatBase, rhs: MatBase, rr: int, cc: int, p: int)
    requires
        lhs.wf(),
        rhs.wf(),
        0 <= rr < lhs.nrows,
        0 <= cc < rhs.ncols,
        0 <= p < lhs.ncols,
        lhs.ncols == rhs.nrows,
        lhs.ncols <= SCALAR_LIMIT,
        lhs.entries_bounded(SCALAR_LIMIT as int),
        rhs.entries_bounded(SCALAR_LIMIT as int),
    ensures
        -dot_limit() <= dot_range(lhs, rhs, rr, cc, 0, p) + lhs.at(rr, p) * rhs.at(p, cc)
            <= dot_limit(),
        -dot_limit() <= dot_range(lhs, rhs, rr, cc, 0, p + 1) <= dot_limit(),
        dot_range(lhs, rhs, rr, cc, 0, p + 1) == dot_range(lhs, rhs, rr, cc, 0, p) + lhs.at(
            rr,
            p,
        ) * rhs.at(p, cc),
{
    let b = SCALAR_LIMIT as int;
    assert forall|q: int| 0 <= q < p + 1 implies -b <= #[trigger] lhs.at_or_zero(rr, q) <= b by {
        assert(lhs.in_bounds_spec(rr, q));
        assert(-b <= lhs.at(rr, q) <= b);
    }
    assert forall|q: int| 0 <= q < p + 1 implies -b <= #[trigger] rhs.at_or_zero(q, cc) <= b by {
        assert(rhs.in_bounds_spec(q, cc));
        assert(-b <= rhs.at(q, cc) <= b);
    }
    lemma_dot_range_bound(lhs, rhs, rr, cc, 0, p, b);
    lemma_dot_range_bound(lhs, rhs, rr, cc, 0, p + 1, b);
    lemma_mul_bounds(lhs.at(rr, p), b, rhs.at(p, cc), b);
    lemma_mul_inequality(p, b, b * b);
    lemma_mul_inequality(p + 1, b, b * b);
    assert(lhs.at_or_zero(rr, p) == lhs.at(rr, p));
    assert(rhs.at_or_zero(p, cc) == rhs.at(p, cc));
}

/// Out-of-bounds reads yield zero, so `at_or_zero` obeys any nonnegative
/// bound the in-bounds entries obey.
pub proof fn lemma_at_or_zero_bounded(m: MatBase, bound: int)
    requires
        m.entries_bounded(bound),
        bound >= 0,
    ensures
        forall|i: int, j: int| -bound <= #[trigger] m.at_or_zero(i, j) <= bound,
{
    assert forall|i: int, j: int| -bound <= #[trigger] m.at_or_zero(i, j) <= bound by {
        if m.in_bounds_spec(i, j) {
            assert(-bound <= m.at(i, j) <= bound);
        }
    }
}

/// `alpha * dot + beta * z` stays within `ACCUM_LIMIT` when the scalars,
/// the matrix entries, the prior value `z` and the depth extent all stay
/// within `SCALAR_LIMIT`.
pub proof fn lemma_accum_bound(
    a: MatBase,
    b: MatBase,
    alpha: int,
    beta: int,
    i: int,
    j: int,
    hi: int,
    z: int,
)
    requires
        a.entries_bounded(SCALAR_LIMIT as int),
        b.entries_bounded(SCALAR_LIMIT as int),
        0 <= hi <= SCALAR_LIMIT,
        -SCALAR_LIMIT <= alpha <= SCALAR_LIMIT,
        -SCALAR_LIMIT <= beta <= SCALAR_LIMIT,
        -SCALAR_LIMIT <= z <= SCALAR_LIMIT,
    ensures
        -ACCUM_LIMIT <= alpha * dot_range(a, b, i, j, 0, hi) + beta * z <= ACCUM_LIMIT,
{
    let lim = SCALAR_LIMIT as int;
    lemma_at_or_zero_bounded(a, lim);
    lemma_at_or_zero_bounded(b, lim);
    lemma_dot_range_bound(a, b, i, j, 0, hi, lim);
    lemma_mul_inequality(hi, lim, lim * lim);
    lemma_mul_bounds(alpha, lim, dot_range(a, b, i, j, 0, hi), lim * (lim * lim));
    lemma_mul_bounds(beta, lim, z, lim);
    assert(lim * (lim * (lim * lim)) + lim * lim == ACCUM_LIMIT);
}

/// `q * d + r` with `0 <= r < d` determines `q` and `r` uniquely.
pub proof fn lemma_division_form_unique(q1: int, r1: int, q2: int, r2: int, d: int)
    requires
        0 <= r1 < d,
        0 <= r2 < d,
        q1 >= 0,
        q2 >= 0,
        q1 * d + r1 == q2 * d + r2,
    ensures
        q1 == q2,
        r1 == r2,
{
    assert(q1 == q2 && r1 == r2) by (nonlinear_arith)
        requires
            0 <= r1 < d,
            0 <= r2 < d,
            q1 * d + r1 == q2 * d + r2,
    ;
}

/// In a grid of `w`-wide rows, the flat position of `(i1, j1)` lies strictly
/// below the start of any later row, and below `(i1 + 1) * w`.
pub proof fn lemma_flat_index_bound(i1: int, j1: int, h: int, w: int)
    requires
        0 <= i1 < h,
        0 <= j1 < w,
    ensures
        0 <= i1 * w + j1 < h * w,
        i1 * w + j1 < (i1 + 1) * w,
{
    assert((i1 + 1) * w == i1 * w + w) by (nonlinear_arith);
    lemma_mul_inequality(i1 + 1, h, w);
    vstd::arithmetic::mul::lemma_mul_nonnegative(i1, w);
}

} // verus!
