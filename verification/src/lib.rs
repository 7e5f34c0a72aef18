//! A BLIS-style blocked general matrix multiply (GEMM) engine:
//! `C := alpha * A * B + beta * C` over strided matrix views, with
//! cache-aware blocking, explicit panel packing and a pluggable
//! microkernel abstraction.

pub mod gemm;
pub mod kernel;
pub mod kernels;
pub mod laws;
pub mod mat;
pub mod model;
pub mod naive;
pub mod packing;
pub mod select;
pub mod sizes;

pub use mat::Layout;
pub use mat::MatBase;
pub use mat::MatMut;
pub use mat::MatRef;
pub use kernel::Kernel;
pub use sizes::BlockSizes;
pub use sizes::PackSizes;
pub use naive::naive_gemm;
pub use gemm::gemm_check_args;
pub use gemm::gemm_with_kernel;
pub use select::kernel_selector;
pub use select::KernelSelector;
