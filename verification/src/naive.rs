//! The triple-nested-loop reference: `c = alpha*a*b + beta*c` computed one
//! dot product at a time, with no blocking and no packing.

use vstd::prelude::*;
use crate::mat::lemma_same_shape_injective;
use crate::mat::MatMut;
use crate::mat::MatRef;
use crate::model::dot_limit;
use crate::model::dot_range;
use crate::model::lemma_bounded_step;
use crate::model::lemma_mul_bounds;
use crate::model::SCALAR_LIMIT;

verus! {

/// Computes `c = alpha*a*b + beta*c` by the dot-product definition: the
/// element at `(i, j)` becomes `alpha` times the dot product of row `i` of
/// `a` with column `j` of `b`, plus `beta` times the previous element.
#[verifier::loop_isolation(false)]
pub fn naive_gemm(alpha: i64, a: &MatRef, b: &MatRef, beta: i64, c: &mut MatMut)
    requires
        a.wf(),
        b.wf(),
        old(c).wf(),
        old(c).injective_strides(),
        a.nrows == old(c).nrows,
        a.ncols == b.nrows,
        b.ncols == old(c).ncols,
        a.ncols <= SCALAR_LIMIT,
        -SCALAR_LIMIT <= alpha <= SCALAR_LIMIT,
        -SCALAR_LIMIT <= beta <= SCALAR_LIMIT,
        a.entries_bounded(SCALAR_LIMIT as int),
        b.entries_bounded(SCALAR_LIMIT as int),
        old(c).entries_bounded(SCALAR_LIMIT as int),
    ensures
        final(c).wf(),
        final(c).same_shape(*old(c)),
        final(c).injective_strides(),
        forall|i: int, j: int|
            old(c).in_bounds_spec(i, j) ==> #[trigger] final(c).at(i, j) == alpha * dot_range(
                *a,
                *b,
                i,
                j,
                0,
                a.ncols as int,
            ) + beta * old(c).at(i, j),
{
    let m = a.nrows();
    let k = a.ncols();
    let n = b.ncols();
    let mut i: usize = 0;
    while i < m
        invariant
            i <= m,
            c.wf(),
            c.same_shape(*old(c)),
            c.injective_strides(),
            forall|r: int, q: int|
                old(c).in_bounds_spec(r, q) && r < i ==> #[trigger] c.at(r, q) == alpha
                    * dot_range(*a, *b, r, q, 0, k as int) + beta * old(c).at(r, q),
            forall|r: int, q: int|
                old(c).in_bounds_spec(r, q) && r >= i ==> #[trigger] c.at(r, q) == old(c).at(r, q),
        decreases m - i,
    {
        let mut j: usize = 0;
        while j < n
            invariant
                i < m,
                j <= n,
                c.wf(),
                c.same_shape(*old(c)),
                c.injective_strides(),
                forall|r: int, q: int|
                    old(c).in_bounds_spec(r, q) && (r < i || (r == i && q < j)) ==> #[trigger] c.at(
                        r,
                        q,
                    ) == alpha * dot_range(*a, *b, r, q, 0, k as int) + beta * old(c).at(r, q),
                forall|r: int, q: int|
                    old(c).in_bounds_spec(r, q) && !(r < i || (r == i && q < j)) ==> #[trigger] c.at(
                        r,
                        q,
                    ) == old(c).at(r, q),
            decreases n - j,
        {
            let mut acc: i64 = 0;
            let mut h: usize = 0;
            while h < k
                invariant
                    i < m,
                    j < n,
                    h <= k,
                    acc as int == dot_range(*a, *b, i as int, j as int, 0, h as int),
                    -dot_limit() <= acc as int <= dot_limit(),
                decreases k - h,
            {
                proof {
                    lemma_bounded_step(*a, *b, i as int, j as int, h as int);
                }
                acc = acc + a.get(i, h) * b.get(h, j);
                h += 1;
            }
            let z = c.get(i, j);
            proof {
                lemma_mul_bounds(alpha as int, SCALAR_LIMIT as int, acc as int, dot_limit());
                lemma_mul_bounds(beta as int, SCALAR_LIMIT as int, z as int, SCALAR_LIMIT as int);
                assert(z as int == old(c).at(i as int, j as int));
            }
            let v = alpha * acc + beta * z;
            let ghost prev = *c;
            c.set(i, j, v);
            proof {
                lemma_same_shape_injective(*old(c), *c);
                assert forall|r: int, q: int|
                    old(c).in_bounds_spec(r, q) && (r != i || q != j) implies #[trigger] c.at(r, q)
                    == prev.at(r, q) by {
                    assert(prev.in_bounds_spec(r, q));
                    assert(prev.index_of(r, q) != prev.index_of(i as int, j as int));
                }
            }
            j += 1;
        }
        i += 1;
    }
}

} // verus!
