//! Panel packing and register-tile exchange.
//!
//! Packing copies a rectangular window of a source matrix into a contiguous
//! panel laid out for sequential microkernel access, writing zero wherever
//! the window leaves the source. The register-tile exchange loads one
//! microkernel-sized output tile into a flat column-major accumulator
//! (padding with zero) and later scatters it back, clipping to the
//! destination bounds.

use vstd::prelude::*;
use vstd::arithmetic::div_mod::lemma_fundamental_div_mod_converse;
use vstd::arithmetic::mul::lemma_mul_inequality;
use vstd::arithmetic::mul::lemma_mul_is_commutative;
use vstd::arithmetic::mul::lemma_mul_nonnegative;
use crate::mat::lemma_same_shape_injective;
use crate::mat::MatBase;
use crate::model::grid;
use crate::model::grid3;
use crate::model::lemma_flat_index_bound;

verus! {

/// Copies the window `start..end` of a buffer into a new vector.
pub(crate) fn subvec(v: &Vec<i64>, start: usize, end: usize) -> (r: Vec<i64>)
    requires
        start <= end <= v.len(),
    ensures
        r@ == v@.subrange(start as int, end as int),
{
    let mut out: Vec<i64> = Vec::new();
    let mut i = start;
    while i < end
        invariant
            start <= i <= end <= v.len(),
            out@ == v@.subrange(start as int, i as int),
        decreases end - i,
    {
        out.push(v[i]);
        proof {
            assert(v@.subrange(start as int, i + 1) =~= v@.subrange(start as int, i as int).push(
                v@[i as int],
            ));
        }
        i += 1;
    }
    out
}

/// A vector of `len` zeros.
pub(crate) fn zeros(len: usize) -> (r: Vec<i64>)
    ensures
        r.len() == len,
        forall|i: int| 0 <= i < len ==> r@[i] == 0i64,
{
    let mut out: Vec<i64> = Vec::new();
    let mut i: usize = 0;
    while i < len
        invariant
            i <= len,
            out.len() == i,
            forall|j: int| 0 <= j < i ==> out@[j] == 0i64,
        decreases len - i,
    {
        out.push(0);
        i += 1;
    }
    out
}

/// Column-major copy of the window of `mat` with rows `r0..r1` and columns
/// `c0..c1`; positions outside the matrix yield zero. Flat position `idx`
/// holds the element at row `idx % h`, column `idx / h` of the window.
pub(crate) fn col_major_values(mat: &MatBase, r0: usize, r1: usize, c0: usize, c1: usize) -> (r:
    Vec<i64>)
    requires
        mat.wf(),
        r0 <= r1,
        c0 <= c1,
        (r1 - r0) * (c1 - c0) <= usize::MAX,
    ensures
        r.len() == (r1 - r0) * (c1 - c0),
        forall|idx: int|
            0 <= idx < r.len() ==> #[trigger] r@[idx] == mat.at_or_zero(
                r0 + (idx % (r1 - r0)),
                c0 + (idx / (r1 - r0)),
            ),
{
    let h = r1 - r0;
    let w = c1 - c0;
    let mut out: Vec<i64> = Vec::new();
    let mut ci: usize = 0;
    while ci < w
        invariant
            mat.wf(),
            h == r1 - r0,
            w == c1 - c0,
            r0 <= r1,
            c0 <= c1,
            h * w <= usize::MAX,
            ci <= w,
            out.len() == ci * h,
            forall|idx: int|
                0 <= idx < out.len() ==> #[trigger] out@[idx] == mat.at_or_zero(
                    r0 + (idx % h as int),
                    c0 + (idx / h as int),
                ),
        decreases w - ci,
    {
        proof {
            lemma_mul_inequality(ci + 1, w as int, h as int);
            lemma_mul_is_commutative(w as int, h as int);
            assert((ci + 1) * h == ci * h + h) by (nonlinear_arith);
        }
        let mut ri: usize = 0;
        while ri < h
            invariant
                mat.wf(),
                h == r1 - r0,
                w == c1 - c0,
                r0 <= r1,
                c0 <= c1,
                ri <= h,
                ci < w,
                ci * h + h <= h * w <= usize::MAX,
                out.len() == ci * h + ri,
                forall|idx: int|
                    0 <= idx < out.len() ==> #[trigger] out@[idx] == mat.at_or_zero(
                        r0 + (idx % h as int),
                        c0 + (idx / h as int),
                    ),
            decreases h - ri,
        {
            out.push(mat.get_or_zero(r0 + ri, c0 + ci));
            proof {
                lemma_fundamental_div_mod_converse(
                    ci * h + ri,
                    h as int,
                    ci as int,
                    ri as int,
                );
            }
            ri += 1;
        }
        ci += 1;
    }
    proof {
        lemma_mul_is_commutative(w as int, h as int);
    }
    out
}

/// Row-major copy of the window of `mat` with rows `r0..r1` and columns
/// `c0..c1`; positions outside the matrix yield zero. Flat position `idx`
/// holds the element at row `idx / w`, column `idx % w` of the window.
pub(crate) fn row_major_values(mat: &MatBase, r0: usize, r1: usize, c0: usize, c1: usize) -> (r:
    Vec<i64>)
    requires
        mat.wf(),
        r0 <= r1,
        c0 <= c1,
        (r1 - r0) * (c1 - c0) <= usize::MAX,
    ensures
        r.len() == (r1 - r0) * (c1 - c0),
        forall|idx: int|
            0 <= idx < r.len() ==> #[trigger] r@[idx] == mat.at_or_zero(
                r0 + (idx / (c1 - c0)),
                c0 + (idx % (c1 - c0)),
            ),
{
    let h = r1 - r0;
    let w = c1 - c0;
    let mut out: Vec<i64> = Vec::new();
    let mut ri: usize = 0;
    while ri < h
        invariant
            mat.wf(),
            h == r1 - r0,
            w == c1 - c0,
            r0 <= r1,
            c0 <= c1,
            h * w <= usize::MAX,
            ri <= h,
            out.len() == ri * w,
            forall|idx: int|
                0 <= idx < out.len() ==> #[trigger] out@[idx] == mat.at_or_zero(
                    r0 + (idx / w as int),
                    c0 + (idx % w as int),
                ),
        decreases h - ri,
    {
        proof {
            lemma_mul_inequality(ri + 1, h as int, w as int);
            assert((ri + 1) * w == ri * w + w) by (nonlinear_arith);
        }
        let mut ci: usize = 0;
        while ci < w
            invariant
                mat.wf(),
                h == r1 - r0,
                w == c1 - c0,
                r0 <= r1,
                c0 <= c1,
                ci <= w,
                ri < h,
                ri * w + w <= h * w <= usize::MAX,
                out.len() == ri * w + ci,
                forall|idx: int|
                    0 <= idx < out.len() ==> #[trigger] out@[idx] == mat.at_or_zero(
                        r0 + (idx / w as int),
                        c0 + (idx % w as int),
                    ),
            decreases w - ci,
        {
            out.push(mat.get_or_zero(r0 + ri, c0 + ci));
            proof {
                lemma_fundamental_div_mod_converse(
                    ri * w + ci,
                    w as int,
                    ri as int,
                    ci as int,
                );
            }
            ci += 1;
        }
        ri += 1;
    }
    out
}

/// Packs the window of `a` with rows `r0..r1` and columns `c0..c1` into
/// `(r1 - r0) / mr` column-major sub-blocks of shape `mr x (c1 - c0)`.
/// Window positions outside of `a` are written as zero.
pub fn pack_a(mr: usize, apack: &mut Vec<i64>, a: &MatBase, r0: usize, r1: usize, c0: usize, c1: usize)
    requires
        a.wf(),
        mr >= 1,
        r0 <= r1,
        c0 <= c1,
        mr <= r1 - r0,
        (r1 - r0) % (mr as int) == 0,
        (r1 - r0) * (c1 - c0) <= usize::MAX,
    ensures
        final(apack).len() == (r1 - r0) * (c1 - c0),
        forall|l: int, p: int, q: int|
            0 <= l < (r1 - r0) / (mr as int) && 0 <= p < c1 - c0 && 0 <= q < mr
                ==> final(apack)@[#[trigger] grid3(l, p, q, c1 - c0, mr as int)] == a.at_or_zero(
                r0 + l * mr + q,
                c0 + p,
            ),
{
    let kc = c1 - c0;
    let nblocks = (r1 - r0) / mr;
    proof {
        lemma_nblocks_times_block(r1 - r0, kc as int, mr as int);
        lemma_mul_nonnegative(mr as int, kc as int);
        lemma_mul_inequality(mr as int, r1 - r0, kc as int);
    }
    let blk = mr * kc;
    let mut out: Vec<i64> = Vec::new();
    let mut l: usize = 0;
    while l < nblocks
        invariant
            a.wf(),
            mr >= 1,
            r0 <= r1,
            c0 <= c1,
            kc == c1 - c0,
            nblocks == (r1 - r0) / (mr as int),
            nblocks * mr == r1 - r0,
            blk == mr * kc,
            nblocks * blk == (r1 - r0) * kc <= usize::MAX,
            l <= nblocks,
            out.len() == l * blk,
            forall|idx: int|
                0 <= idx < out.len() ==> #[trigger] out@[idx] == a.at_or_zero(
                    r0 + (idx / blk as int) * mr + ((idx % blk as int) % mr as int),
                    c0 + ((idx % blk as int) / mr as int),
                ),
        decreases nblocks - l,
    {
        proof {
            lemma_mul_inequality(l + 1, nblocks as int, blk as int);
            lemma_mul_inequality(l + 1, nblocks as int, mr as int);
            assert((l + 1) * blk == l * blk + blk) by (nonlinear_arith);
            assert((l + 1) * mr == l * mr + mr) by (nonlinear_arith);
            lemma_mul_nonnegative(l as int, mr as int);
            lemma_mul_nonnegative(l as int, blk as int);
        }
        let rs = r0 + l * mr;
        let mut tmp = col_major_values(a, rs, rs + mr, c0, c1);
        let ghost out_before = out@;
        out.append(&mut tmp);
        proof {
            assert forall|idx: int| 0 <= idx < out.len() implies #[trigger] out@[idx]
                == a.at_or_zero(
                r0 + (idx / blk as int) * mr + ((idx % blk as int) % mr as int),
                c0 + ((idx % blk as int) / mr as int),
            ) by {
                if idx >= out_before.len() {
                    let o = idx - l * blk;
                    lemma_fundamental_div_mod_converse(idx, blk as int, l as int, o);
                }
            }
        }
        l += 1;
    }
    *apack = out;
    proof {
        assert forall|l: int, p: int, q: int|
            0 <= l < nblocks && 0 <= p < kc && 0 <= q < mr implies apack@[#[trigger] grid3(
            l,
            p,
            q,
            kc as int,
            mr as int,
        )] == a.at_or_zero(r0 + l * mr + q, c0 + p) by {
            let o = p * mr + q;
            lemma_flat_index_bound(p, q, kc as int, mr as int);
            lemma_mul_is_commutative(kc as int, mr as int);
            lemma_fundamental_div_mod_converse(grid3(l, p, q, kc as int, mr as int), blk as int, l, o);
            lemma_fundamental_div_mod_converse(o, mr as int, p, q);
            lemma_flat_index_bound(l, o, nblocks as int, blk as int);
        }
    }
}

/// Packs the window of `b` with rows `r0..r1` and columns `c0..c1` into
/// `(c1 - c0) / nr` row-major sub-blocks of shape `(r1 - r0) x nr`.
/// Window positions outside of `b` are written as zero.
pub fn pack_b(nr: usize, bpack: &mut Vec<i64>, b: &MatBase, r0: usize, r1: usize, c0: usize, c1: usize)
    requires
        b.wf(),
        nr >= 1,
        r0 <= r1,
        c0 <= c1,
        nr <= c1 - c0,
        (c1 - c0) % (nr as int) == 0,
        (r1 - r0) * (c1 - c0) <= usize::MAX,
    ensures
        final(bpack).len() == (r1 - r0) * (c1 - c0),
        forall|l: int, p: int, q: int|
            0 <= l < (c1 - c0) / (nr as int) && 0 <= p < r1 - r0 && 0 <= q < nr
                ==> final(bpack)@[#[trigger] grid3(l, p, q, r1 - r0, nr as int)] == b.at_or_zero(
                r0 + p,
                c0 + l * nr + q,
            ),
{
    let kc = r1 - r0;
    let nblocks = (c1 - c0) / nr;
    proof {
        lemma_nblocks_times_block(c1 - c0, kc as int, nr as int);
        lemma_mul_nonnegative(nr as int, kc as int);
        lemma_mul_is_commutative(kc as int, c1 - c0);
        assert((r1 - r0) * (c1 - c0) == (c1 - c0) * kc);
        lemma_mul_inequality(nr as int, c1 - c0, kc as int);
        lemma_mul_is_commutative(nr as int, kc as int);
        lemma_mul_is_commutative(c1 - c0, kc as int);
    }
    let blk = nr * kc;
    let mut out: Vec<i64> = Vec::new();
    let mut l: usize = 0;
    while l < nblocks
        invariant
            b.wf(),
            nr >= 1,
            r0 <= r1,
            c0 <= c1,
            kc == r1 - r0,
            nblocks == (c1 - c0) / (nr as int),
            nblocks * nr == c1 - c0,
            blk == nr * kc,
            nblocks * blk == (c1 - c0) * kc <= usize::MAX,
            l <= nblocks,
            out.len() == l * blk,
            forall|idx: int|
                0 <= idx < out.len() ==> #[trigger] out@[idx] == b.at_or_zero(
                    r0 + ((idx % blk as int) / nr as int),
                    c0 + (idx / blk as int) * nr + ((idx % blk as int) % nr as int),
                ),
        decreases nblocks - l,
    {
        proof {
            lemma_mul_inequality(l + 1, nblocks as int, blk as int);
            lemma_mul_inequality(l + 1, nblocks as int, nr as int);
            assert((l + 1) * blk == l * blk + blk) by (nonlinear_arith);
            assert((l + 1) * nr == l * nr + nr) by (nonlinear_arith);
            lemma_mul_nonnegative(l as int, nr as int);
            lemma_mul_nonnegative(l as int, blk as int);
            lemma_mul_inequality(1, nblocks as int, blk as int);
            lemma_mul_is_commutative(kc as int, nr as int);
            assert(1 * blk == blk);
        }
        let cs = c0 + l * nr;
        let mut tmp = row_major_values(b, r0, r1, cs, cs + nr);
        let ghost out_before = out@;
        proof {
            lemma_mul_is_commutative(kc as int, nr as int);
        }
        out.append(&mut tmp);
        proof {
            assert forall|idx: int| 0 <= idx < out.len() implies #[trigger] out@[idx]
                == b.at_or_zero(
                r0 + ((idx % blk as int) / nr as int),
                c0 + (idx / blk as int) * nr + ((idx % blk as int) % nr as int),
            ) by {
                if idx >= out_before.len() {
                    let o = idx - l * blk;
                    lemma_fundamental_div_mod_converse(idx, blk as int, l as int, o);
                }
            }
        }
        l += 1;
    }
    *bpack = out;
    proof {
        assert forall|l: int, p: int, q: int|
            0 <= l < nblocks && 0 <= p < kc && 0 <= q < nr implies bpack@[#[trigger] grid3(
            l,
            p,
            q,
            kc as int,
            nr as int,
        )] == b.at_or_zero(r0 + p, c0 + l * nr + q) by {
            let o = p * nr + q;
            lemma_flat_index_bound(p, q, kc as int, nr as int);
            lemma_mul_is_commutative(kc as int, nr as int);
            lemma_fundamental_div_mod_converse(grid3(l, p, q, kc as int, nr as int), blk as int, l, o);
            lemma_fundamental_div_mod_converse(o, nr as int, p, q);
            lemma_flat_index_bound(l, o, nblocks as int, blk as int);
        }
    }
}

/// Loads the tile of `c` with rows `r0..r1` and columns `c0..c1` into the
/// flat accumulator `registers` in column-major order, writing zero for
/// positions outside of `c`.
pub fn registers_from_c(
    registers: &mut Vec<i64>,
    c: &MatBase,
    r0: usize,
    r1: usize,
    c0: usize,
    c1: usize,
)
    requires
        c.wf(),
        r0 <= r1,
        c0 <= c1,
        old(registers).len() == (r1 - r0) * (c1 - c0),
    ensures
        final(registers).len() == old(registers).len(),
        forall|ci: int, ri: int|
            0 <= ci < c1 - c0 && 0 <= ri < r1 - r0 ==> final(registers)@[#[trigger] grid(
                ci,
                ri,
                r1 - r0,
            )] == c.at_or_zero(r0 + ri, c0 + ci),
{
    *registers = col_major_values(c, r0, r1, c0, c1);
    proof {
        let h = r1 - r0;
        let w = c1 - c0;
        assert forall|ci: int, ri: int| 0 <= ci < w && 0 <= ri < h implies registers@[
            #[trigger] grid(ci, ri, h)] == c.at_or_zero(r0 + ri, c0 + ci) by {
            lemma_flat_index_bound(ci, ri, w, h);
            lemma_mul_is_commutative(w, h);
            lemma_fundamental_div_mod_converse(grid(ci, ri, h), h, ci, ri);
        }
    }
}

/// Scatters the flat column-major accumulator back to the tile of `c` with
/// rows `r0..r1` and columns `c0..c1`; positions outside of `c` are
/// dropped.
pub fn registers_to_c(
    registers: &Vec<i64>,
    c: &mut MatBase,
    r0: usize,
    r1: usize,
    c0: usize,
    c1: usize,
)
    requires
        old(c).wf(),
        old(c).injective_strides(),
        r0 <= r1,
        c0 <= c1,
        registers.len() == (r1 - r0) * (c1 - c0),
    ensures
        final(c).wf(),
        final(c).same_shape(*old(c)),
        final(c).injective_strides(),
        forall|i: int, j: int|
            old(c).in_bounds_spec(i, j) && r0 <= i < r1 && c0 <= j < c1 ==> #[trigger] final(c).at(i, j) == registers@[grid(j - c0, i - r0, r1 - r0)],
        forall|i: int, j: int|
            old(c).in_bounds_spec(i, j) && !(r0 <= i < r1 && c0 <= j < c1) ==> #[trigger] final(c).at(i, j) == old(c).at(i, j),
{
    let h = r1 - r0;
    let w = c1 - c0;
    let mut cj: usize = 0;
    while cj < w
        invariant
            c.wf(),
            c.same_shape(*old(c)),
            c.injective_strides(),
            old(c).wf(),
            old(c).injective_strides(),
            h == r1 - r0,
            w == c1 - c0,
            r0 <= r1,
            c0 <= c1,
            registers.len() == h * w,
            cj <= w,
            forall|i: int, j: int|
                old(c).in_bounds_spec(i, j) && r0 <= i < r1 && c0 <= j < c1 && j - c0 < cj
                    ==> #[trigger] c.at(i, j) == registers@[grid(j - c0, i - r0, h as int)],
            forall|i: int, j: int|
                old(c).in_bounds_spec(i, j) && !(r0 <= i < r1 && c0 <= j < c1 && j - c0 < cj)
                    ==> #[trigger] c.at(i, j) == old(c).at(i, j),
        decreases w - cj,
    {
        let mut ri: usize = 0;
        while ri < h
            invariant
                c.wf(),
                c.same_shape(*old(c)),
                c.injective_strides(),
                old(c).wf(),
                old(c).injective_strides(),
                h == r1 - r0,
                w == c1 - c0,
                r0 <= r1,
                c0 <= c1,
                registers.len() == h * w,
                cj < w,
                ri <= h,
                forall|i: int, j: int|
                    old(c).in_bounds_spec(i, j) && r0 <= i < r1 && c0 <= j < c1 && (j - c0 < cj
                        || (j - c0 == cj && i - r0 < ri)) ==> #[trigger] c.at(i, j)
                        == registers@[grid(j - c0, i - r0, h as int)],
                forall|i: int, j: int|
                    old(c).in_bounds_spec(i, j) && !(r0 <= i < r1 && c0 <= j < c1 && (j - c0 < cj
                        || (j - c0 == cj && i - r0 < ri))) ==> #[trigger] c.at(i, j) == old(c).at(i, j),
            decreases h - ri,
        {
            let row = r0 + ri;
            let col = c0 + cj;
            proof {
                lemma_flat_index_bound(cj as int, ri as int, w as int, h as int);
                lemma_mul_is_commutative(w as int, h as int);
            }
            let v = registers[cj * h + ri];
            if c.in_bounds(row, col) {
                let ghost prev = *c;
                c.set(row, col, v);
                proof {
                    lemma_same_shape_injective(*old(c), *c);
                    assert forall|i: int, j: int|
                        old(c).in_bounds_spec(i, j) && r0 <= i < r1 && c0 <= j < c1 && (j - c0 < cj
                            || (j - c0 == cj && i - r0 < ri + 1)) implies #[trigger] c.at(i, j)
                        == registers@[grid(j - c0, i - r0, h as int)] by {
                        if i == row && j == col {
                            assert(c.at(i, j) == v as int);
                        } else {
                            assert(prev.in_bounds_spec(i, j));
                            assert(prev.index_of(i, j) != prev.index_of(row as int, col as int));
                            assert(c.at(i, j) == prev.at(i, j));
                        }
                    }
                    assert forall|i: int, j: int|
                        old(c).in_bounds_spec(i, j) && !(r0 <= i < r1 && c0 <= j < c1 && (j - c0
                            < cj || (j - c0 == cj && i - r0 < ri + 1))) implies #[trigger] c.at(
                        i,
                        j,
                    ) == old(c).at(i, j) by {
                        assert(prev.in_bounds_spec(i, j));
                        assert(prev.index_of(i, j) != prev.index_of(row as int, col as int));
                        assert(c.at(i, j) == prev.at(i, j));
                    }
                }
            }
            ri += 1;
        }
        cj += 1;
    }
}

/// A flat column-major copy of a matrix window, and the clipped scatter
/// that writes such a copy back.
pub struct ColMajor(pub Vec<i64>);

impl ColMajor {
    /// Fills the buffer from the window of `mat` with rows `r0..r1` and
    /// columns `c0..c1`, writing zero outside of `mat`.
    pub fn init_from(&mut self, mat: &MatBase, r0: usize, r1: usize, c0: usize, c1: usize)
        requires
            mat.wf(),
            r0 <= r1,
            c0 <= c1,
            old(self).0.len() == (r1 - r0) * (c1 - c0),
        ensures
            final(self).0.len() == old(self).0.len(),
            forall|ci: int, ri: int|
                0 <= ci < c1 - c0 && 0 <= ri < r1 - r0 ==> final(self).0@[#[trigger] grid(
                    ci,
                    ri,
                    r1 - r0,
                )] == mat.at_or_zero(r0 + ri, c0 + ci),
    {
        registers_from_c(&mut self.0, mat, r0, r1, c0, c1);
    }

    /// Writes the buffer to the window of `mat` with rows `r0..r1` and
    /// columns `c0..c1`, dropping positions outside of `mat`.
    pub fn copy_to(&self, mat: &mut MatBase, r0: usize, r1: usize, c0: usize, c1: usize)
        requires
            old(mat).wf(),
            old(mat).injective_strides(),
            r0 <= r1,
            c0 <= c1,
            self.0.len() == (r1 - r0) * (c1 - c0),
        ensures
            final(mat).wf(),
            final(mat).same_shape(*old(mat)),
            final(mat).injective_strides(),
            forall|i: int, j: int|
                old(mat).in_bounds_spec(i, j) && r0 <= i < r1 && c0 <= j < c1 ==> #[trigger] final(mat).at(i, j) == self.0@[grid(j - c0, i - r0, r1 - r0)],
            forall|i: int, j: int|
                old(mat).in_bounds_spec(i, j) && !(r0 <= i < r1 && c0 <= j < c1)
                    ==> #[trigger] final(mat).at(i, j) == old(mat).at(i, j),
    {
        registers_to_c(&self.0, mat, r0, r1, c0, c1);
    }
}

/// A flat row-major copy of a matrix window.
pub struct RowMajor(pub Vec<i64>);

impl RowMajor {
    /// Fills the buffer from the window of `mat` with rows `r0..r1` and
    /// columns `c0..c1`, writing zero outside of `mat`.
    pub fn init_from(&mut self, mat: &MatBase, r0: usize, r1: usize, c0: usize, c1: usize)
        requires
            mat.wf(),
            r0 <= r1,
            c0 <= c1,
            old(self).0.len() == (r1 - r0) * (c1 - c0),
        ensures
            final(self).0.len() == old(self).0.len(),
            forall|ri: int, ci: int|
                0 <= ri < r1 - r0 && 0 <= ci < c1 - c0 ==> final(self).0@[#[trigger] grid(
                    ri,
                    ci,
                    c1 - c0,
                )] == mat.at_or_zero(r0 + ri, c0 + ci),
    {
        self.0 = row_major_values(mat, r0, r1, c0, c1);
        proof {
            let h = r1 - r0;
            let w = c1 - c0;
            assert forall|ri: int, ci: int| 0 <= ri < h && 0 <= ci < w implies self.0@[
                #[trigger] grid(ri, ci, w)] == mat.at_or_zero(r0 + ri, c0 + ci) by {
                lemma_flat_index_bound(ri, ci, h, w);
                lemma_fundamental_div_mod_converse(grid(ri, ci, w), w, ri, ci);
            }
        }
    }
}

/// `(n / d) * (d * k) == n * k` when `d` divides `n`.
pub(crate) proof fn lemma_nblocks_times_block(n: int, k: int, d: int)
    requires
        d >= 1,
        n >= 0,
        n % d == 0,
    ensures
        (n / d) * d == n,
        (n / d) * (d * k) == n * k,
        n / d >= 0,
{
    vstd::arithmetic::div_mod::lemma_fundamental_div_mod(n, d);
    lemma_mul_is_commutative(d, n / d);
    assert(n / d >= 0) by (nonlinear_arith)
        requires
            n == d * (n / d) + n % d,
            0 <= n % d < d,
            n >= 0,
            d >= 1,
    ;
    assert((n / d) * (d * k) == ((n / d) * d) * k) by (nonlinear_arith);
}

} // verus!
