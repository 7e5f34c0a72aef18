//! Kernel selection: picks a default portable kernel.

use vstd::prelude::*;
use crate::kernel::Kernel;
use crate::kernels::Generic4x4Kernel;
use crate::kernels::GenericSquareKernel;

verus! {

/// Builds a selector for a default kernel.
pub fn kernel_selector() -> (r: KernelSelector) {
    KernelSelector::new()
}

/// Picks a default kernel: the portable 4x4 scalar kernel.
#[derive(Debug, Clone, Copy, Default)]
pub struct KernelSelector;

impl KernelSelector {
    pub fn new() -> Self {
        KernelSelector
    }

    /// The default kernel.
    pub fn select(self) -> (r: Generic4x4Kernel)
        ensures
            r.mr_spec() == 4,
            r.nr_spec() == 4,
    {
        GenericSquareKernel
    }
}

} // verus!
