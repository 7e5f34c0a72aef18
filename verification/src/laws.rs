//! Laws relating the library's components, stated over the same spec
//! functions that the executable functions' contracts use.

use vstd::prelude::*;
use crate::gemm::gemm_post;
use crate::mat::MatBase;
use crate::model::dot_range;
use crate::model::grid;

verus! {

/// Law: the blocked loop nest is equivalent to the naive triple-loop
/// reference. A result that satisfies the blocked GEMM postcondition and a
/// result that satisfies the reference postcondition, produced from the
/// same inputs and the same initial output, agree on every element.
pub proof fn lemma_gemm_matches_naive(
    alpha: int,
    a: MatBase,
    b: MatBase,
    beta: int,
    c0: MatBase,
    c_blocked: MatBase,
    c_naive: MatBase,
)
    requires
        gemm_post(alpha, a, b, beta, c0, c_blocked),
        c_naive.same_shape(c0),
        forall|i: int, j: int|
            c0.in_bounds_spec(i, j) ==> #[trigger] c_naive.at(i, j) == alpha * dot_range(
                a,
                b,
                i,
                j,
                0,
                a.ncols as int,
            ) + beta * c0.at(i, j),
    ensures
        forall|i: int, j: int|
            c0.in_bounds_spec(i, j) ==> #[trigger] c_blocked.at(i, j) == c_naive.at(i, j),
{
    assert forall|i: int, j: int| c0.in_bounds_spec(i, j) implies #[trigger] c_blocked.at(i, j)
        == c_naive.at(i, j) by {
        assert(c_blocked.at(i, j) == alpha * dot_range(a, b, i, j, 0, a.ncols as int) + beta
            * c0.at(i, j));
        assert(c_naive.at(i, j) == alpha * dot_range(a, b, i, j, 0, a.ncols as int) + beta
            * c0.at(i, j));
    }
}

/// Law: a register-tile load followed immediately by a store, with no
/// intervening mutation, reproduces the destination exactly. In-bounds
/// tile positions are written back with their loaded values, and the store
/// clips every position that falls outside the destination.
pub proof fn lemma_tile_round_trip(
    c0: MatBase,
    regs: Seq<i64>,
    c1: MatBase,
    r0: int,
    r1: int,
    c_lo: int,
    c_hi: int,
)
    requires
        r0 <= r1,
        c_lo <= c_hi,
        forall|ci: int, ri: int|
            0 <= ci < c_hi - c_lo && 0 <= ri < r1 - r0 ==> regs[#[trigger] grid(ci, ri, r1 - r0)]
                == c0.at_or_zero(r0 + ri, c_lo + ci),
        c1.same_shape(c0),
        forall|i: int, j: int|
            c0.in_bounds_spec(i, j) && r0 <= i < r1 && c_lo <= j < c_hi ==> #[trigger] c1.at(i, j)
                == regs[grid(j - c_lo, i - r0, r1 - r0)],
        forall|i: int, j: int|
            c0.in_bounds_spec(i, j) && !(r0 <= i < r1 && c_lo <= j < c_hi) ==> #[trigger] c1.at(
                i,
                j,
            ) == c0.at(i, j),
    ensures
        forall|i: int, j: int|
            c0.in_bounds_spec(i, j) ==> #[trigger] c1.at(i, j) == c0.at(i, j),
{
    assert forall|i: int, j: int| c0.in_bounds_spec(i, j) implies #[trigger] c1.at(i, j) == c0.at(
        i,
        j,
    ) by {
        if r0 <= i < r1 && c_lo <= j < c_hi {
            let ci = j - c_lo;
            let ri = i - r0;
            assert(regs[grid(ci, ri, r1 - r0)] == c0.at_or_zero(r0 + ri, c_lo + ci));
            assert(c0.at_or_zero(i, j) == c0.at(i, j));
        }
    }
}

} // verus!
