use microgemm::kernel_selector;
use microgemm::kernels::GenericSquareKernel;
use microgemm::naive_gemm;
use microgemm::Kernel;
use microgemm::Layout;
use microgemm::MatMut;
use microgemm::MatRef;
use microgemm::PackSizes;
use rand::Rng;

fn random_layout(rng: &mut impl Rng) -> Layout {
    if rng.gen_bool(0.5) {
        Layout::RowMajor
    } else {
        Layout::ColMajor
    }
}

fn check_kernel_against_naive<const DIM: usize>()
where
    GenericSquareKernel<DIM>: Kernel,
{
    let kernel = GenericSquareKernel::<DIM>::new();
    let rng = &mut rand::thread_rng();

    let m = rng.gen_range(1..60);
    let k = rng.gen_range(1..60);
    let n = rng.gen_range(1..60);

    let alpha: i64 = rng.gen_range(-10..10);
    let beta: i64 = rng.gen_range(-10..10);

    let a_vals: Vec<i64> = (0..m * k).map(|_| rng.gen_range(-30..30)).collect();
    let b_vals: Vec<i64> = (0..k * n).map(|_| rng.gen_range(-30..30)).collect();
    let c_vals: Vec<i64> = (0..m * n).map(|_| rng.gen_range(-30..30)).collect();

    let a = MatRef::new(m, k, a_vals, random_layout(rng));
    let b = MatRef::new(k, n, b_vals, random_layout(rng));
    let layout_c = random_layout(rng);
    let mut c = MatMut::new(m, n, c_vals.clone(), layout_c);
    let mut expect = MatMut::new(m, n, c_vals, layout_c);

    let mc = rng.gen_range(1..10) * DIM;
    let nc = rng.gen_range(1..10) * DIM;
    let kc = rng.gen_range(1..k + 20);
    let pack_sizes = PackSizes { mc, kc, nc };
    let fill: i64 = rng.gen_range(-30..30);
    let mut buf = vec![fill; pack_sizes.buf_len()];

    kernel.gemm(alpha, &a, &b, beta, &mut c, &pack_sizes, &mut buf);
    naive_gemm(alpha, &a, &b, beta, &mut expect);
    assert_eq!(c.as_slice(), expect.as_slice());
}

#[test]
fn test_generic2x2_kernel_i32() {
    for _ in 0..20 {
        check_kernel_against_naive::<2>();
    }
}

#[test]
fn test_generic4x4_i32() {
    for _ in 0..20 {
        check_kernel_against_naive::<4>();
    }
}

#[test]
fn test_generic8x8_i32() {
    for _ in 0..20 {
        check_kernel_against_naive::<8>();
    }
}

#[test]
fn test_generic_kernels_i32() {
    check_kernel_against_naive::<2>();
    check_kernel_against_naive::<4>();
    check_kernel_against_naive::<8>();
    check_kernel_against_naive::<16>();
    check_kernel_against_naive::<32>();
}

#[test]
fn test_microkernel_exact() {
    // One 2x2 tile: lhs is column-major 2x3, rhs is row-major 3x2.
    // lhs = [[1, 2, 3], [4, 5, 6]], rhs = [[7, 8], [9, 10], [11, 12]].
    let kernel = GenericSquareKernel::<2>::new();
    let lhs = MatRef::col_major(2, 3, vec![1, 4, 2, 5, 3, 6]);
    let rhs = MatRef::row_major(3, 2, vec![7, 8, 9, 10, 11, 12]);
    let mut dst = MatMut::col_major(2, 2, vec![100, 200, 300, 400]);

    // dst = 2 * lhs*rhs - dst, with lhs*rhs = [[58, 64], [139, 154]].
    kernel.microkernel(2, &lhs, &rhs, -1, &mut dst);
    assert_eq!(dst.as_slice(), [2 * 58 - 100, 2 * 139 - 200, 2 * 64 - 300, 2 * 154 - 400]);
}

#[test]
fn test_kernel_selector() {
    let kernel = kernel_selector().select();
    assert_eq!(kernel.mr(), 4);
    assert_eq!(kernel.nr(), 4);

    let a = MatRef::row_major(2, 2, vec![1, 2, 3, 4]);
    let b = MatRef::row_major(2, 2, vec![5, 6, 7, 8]);
    let mut c = MatMut::row_major(2, 2, vec![0; 4]);
    let pack_sizes = PackSizes {
        mc: 4,
        kc: 2,
        nc: 4,
    };
    let mut buf = vec![0; pack_sizes.buf_len()];
    kernel.gemm(1, &a, &b, 0, &mut c, &pack_sizes, &mut buf);
    assert_eq!(c.as_slice(), [19, 22, 43, 50]);
}

#[test]
fn test_kernel_tile_sizes() {
    assert_eq!(GenericSquareKernel::<2>::new().mr(), 2);
    assert_eq!(GenericSquareKernel::<4>::new().nr(), 4);
    assert_eq!(GenericSquareKernel::<8>::new().mr(), 8);
    assert_eq!(GenericSquareKernel::<16>::new().nr(), 16);
    assert_eq!(GenericSquareKernel::<32>::new().mr(), 32);
}
