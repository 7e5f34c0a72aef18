//! Cache-blocking descriptors: the three cache-tile extents, their
//! validation against a kernel's register-tile sizes, and the exact scratch
//! length the loop nest needs.

use vstd::prelude::*;

verus! {

/// Cache-tile extents along the M, K and N dimensions.
///
/// `mc` must be a positive multiple of the kernel's `mr`, `nc` a positive
/// multiple of its `nr`, and `kc` positive.
#[derive(Debug, Clone, Copy)]
pub struct PackSizes {
    pub mc: usize,
    pub kc: usize,
    pub nc: usize,
}

impl PackSizes {
    /// Exact scratch length: the packed-A panel plus the packed-B panel.
    pub open spec fn buf_len_spec(self) -> int {
        self.mc * self.kc + self.kc * self.nc
    }

    /// The divisibility invariants the descriptor must satisfy for a kernel
    /// with register-tile sizes `mr` x `nr`.
    pub open spec fn valid_for(self, mr: int, nr: int) -> bool {
        &&& 1 <= mr <= self.mc
        &&& self.mc as int % mr == 0
        &&& 1 <= nr <= self.nc
        &&& self.nc as int % nr == 0
        &&& self.kc >= 1
    }

    /// Scratch length as a pure function of the extents.
    pub fn buf_len(self) -> (r: usize)
        requires
            self.buf_len_spec() <= usize::MAX,
        ensures
            r == self.buf_len_spec(),
    {
        self.mc * self.kc + self.kc * self.nc
    }

    /// Scratch length, or `None` when the size arithmetic overflows.
    pub fn checked_buf_len(self) -> (r: Option<usize>)
        ensures
            self.buf_len_spec() <= usize::MAX ==> r == Some(self.buf_len_spec() as usize),
            self.buf_len_spec() > usize::MAX ==> r is None,
    {
        let apack_len = match self.mc.checked_mul(self.kc) {
            Some(v) => v,
            None => {
                return None;
            },
        };
        let bpack_len = match self.kc.checked_mul(self.nc) {
            Some(v) => v,
            None => {
                return None;
            },
        };
        apack_len.checked_add(bpack_len)
    }

    /// Reports whether the descriptor satisfies the divisibility invariants
    /// for register-tile sizes `mr` x `nr`.
    pub fn check(&self, mr: usize, nr: usize) -> (r: bool)
        ensures
            r == self.valid_for(mr as int, nr as int),
    {
        1 <= mr && mr <= self.mc && self.mc % mr == 0 && 1 <= nr && nr <= self.nc && self.nc % nr
            == 0 && self.kc >= 1
    }

    /// Partitions a scratch buffer of exactly `buf_len` elements into the
    /// A-panel region and the B-panel region.
    pub fn split_buf(&self, buf: &Vec<i64>) -> (r: (Vec<i64>, Vec<i64>))
        requires
            buf.len() == self.buf_len_spec(),
        ensures
            r.0@ == buf@.subrange(0, self.mc * self.kc),
            r.1@ == buf@.subrange(self.mc * self.kc, buf.len() as int),
            r.0.len() == self.mc * self.kc,
            r.1.len() == self.kc * self.nc,
    {
        proof {
            vstd::arithmetic::mul::lemma_mul_nonnegative(self.mc as int, self.kc as int);
            vstd::arithmetic::mul::lemma_mul_nonnegative(self.kc as int, self.nc as int);
        }
        let cut = self.mc * self.kc;
        let apack = crate::packing::subvec(buf, 0, cut);
        let bpack = crate::packing::subvec(buf, cut, buf.len());
        (apack, bpack)
    }
}

/// Blocking extents carried together with the register-tile sizes they must
/// divide into.
#[derive(Debug, Clone, Copy)]
pub struct BlockSizes {
    pub mc: usize,
    pub mr: usize,
    pub kc: usize,
    pub nc: usize,
    pub nr: usize,
}

impl BlockSizes {
    pub open spec fn valid(self) -> bool {
        PackSizes { mc: self.mc, kc: self.kc, nc: self.nc }.valid_for(
            self.mr as int,
            self.nr as int,
        )
    }

    /// Reports whether the extents satisfy the divisibility invariants.
    pub fn check(&self) -> (r: bool)
        ensures
            r == self.valid(),
    {
        let pack_sizes = PackSizes { mc: self.mc, kc: self.kc, nc: self.nc };
        pack_sizes.check(self.mr, self.nr)
    }
}

} // verus!
