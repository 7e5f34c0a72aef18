use microgemm::gemm_check_args;
use microgemm::gemm_with_kernel;
use microgemm::kernels::Generic2x2Kernel;
use microgemm::kernels::Generic4x4Kernel;
use microgemm::naive_gemm;
use microgemm::BlockSizes;
use microgemm::Kernel;
use microgemm::MatMut;
use microgemm::MatRef;
use microgemm::PackSizes;

#[test]
fn gemm_fixed_even() {
    let kernel = Generic2x2Kernel::new();

    let alpha = 2;
    let beta = -3;

    let m = 2;
    let k = 4;
    let n = 2;

    let a = vec![1, 2, 3, 4, 5, 6, 7, 8];
    let b = vec![9, 10, 11, 12, 13, 14, 15, 16];
    let a = MatRef::row_major(m, k, a);
    let b = MatRef::row_major(k, n, b);

    let c: Vec<i64> = (0..(m * n) as i64).collect();
    let mut c = MatMut::row_major(m, n, c);

    let pack_sizes = PackSizes {
        mc: 5 * kernel.mr(),
        kc: 2,
        nc: 2 * kernel.nr(),
    };
    let mut buf = vec![-9; pack_sizes.buf_len()];

    gemm_with_kernel(&kernel, alpha, &a, &b, beta, &mut c, &pack_sizes, &mut buf);
    assert_eq!(c.as_slice(), [260, 277, 638, 687]);
}

#[test]
fn gemm_fixed_odd() {
    let kernel = Generic2x2Kernel::new();

    let m = 3;
    let k = 5;
    let n = 3;

    let a = vec![1, 2, 3, 4, 5, 5, 6, 7, 8, 9, -3, -4, -5, -6, -7];
    let b = vec![
        9, 10, -11, 11, 12, -13, 13, 14, -15, 15, 16, -17, 17, 18, -19,
    ];
    let a = MatRef::row_major(m, k, a);
    let b = MatRef::row_major(k, n, b);

    let c_vals: Vec<i64> = (0..(m * n) as i64).collect();
    let mut c = MatMut::row_major(m, n, c_vals.clone());
    let mut expect = MatMut::row_major(m, n, c_vals);

    let pack_sizes = PackSizes {
        mc: 2 * kernel.mr(),
        kc: 2,
        nc: 3 * kernel.nr(),
    };
    let mut buf = vec![-1; pack_sizes.buf_len()];

    let alpha = 2;
    let beta = -3;

    gemm_with_kernel(&kernel, alpha, &a, &b, beta, &mut c, &pack_sizes, &mut buf);
    naive_gemm(alpha, &a, &b, beta, &mut expect);
    assert_eq!(c.as_slice(), expect.as_slice());
}

#[test]
fn test_gemm_sample_1() {
    let kernel = Generic4x4Kernel::new();

    let a = vec![
        28, 26, -9, -29, 29, -8, 23, 22, -2, -2, 26, -21, -29, 2, 26, -17, -22, -18, -24, -23,
        -20, 14, 13, -22,
    ];
    let a = MatRef::row_major(6, 4, a);
    let b = vec![2, -24, 20, -27, -1, -16, -12, -29, -26, -16, -13, -18];
    let b = MatRef::row_major(4, 3, b);
    let c_vals = vec![
        480, 417, -7102, 2720, 13184, 2400, -578, 3651, 2280, 1426, -1463, 7849, -8973, -12188,
        -7249, 508, 627, -7298,
    ];
    let mut c = MatMut::row_major(6, 3, c_vals.clone());
    let mut expect = MatMut::row_major(6, 3, c_vals);

    let alpha = 4;
    let beta = -3;

    let pack_sizes = PackSizes {
        mc: kernel.mr(),
        kc: 2,
        nc: kernel.nr(),
    };
    let mut buf = vec![-2; pack_sizes.buf_len()];

    kernel.gemm(alpha, &a, &b, beta, &mut c, &pack_sizes, &mut buf);
    naive_gemm(alpha, &a, &b, beta, &mut expect);
    assert_eq!(expect.as_slice(), c.as_slice());
}

#[test]
fn fixed_1() {
    let a = vec![1, 2, 3, 4, 5, 6];
    let b = vec![10, 11, 20, 21, 30, 31];
    let a = MatRef::row_major(2, 3, a);
    let b = MatRef::row_major(3, 2, b);

    let mut c = MatMut::row_major(2, 2, vec![-1; 4]);
    let expect = [140, 146, 320, 335];
    naive_gemm(1, &a, &b, 0, &mut c);
    assert_eq!(c.as_slice(), expect);

    let mut c = MatMut::col_major(2, 2, vec![-1; 4]);
    let expect = [140, 320, 146, 335];
    naive_gemm(1, &a, &b, 0, &mut c);
    assert_eq!(c.as_slice(), expect);
}

#[test]
fn fixed_2() {
    let alpha = 3;
    let beta = -4;

    let a = vec![1, 2, 3, 4, 5, 6];
    let b = vec![2, 3, 4, 5, 6, 7];
    let c = vec![-4, 1, -5, -6];
    let expect = [
        beta * c[0] + alpha * (2 + 2 * 3 + 3 * 4),
        beta * c[1] + alpha * (5 + 2 * 6 + 3 * 7),
        beta * c[2] + alpha * (4 * 2 + 5 * 3 + 6 * 4),
        beta * c[3] + alpha * (4 * 5 + 5 * 6 + 6 * 7),
    ];

    let a = MatRef::row_major(2, 3, a);
    let b = MatRef::col_major(3, 2, b);
    let mut c = MatMut::row_major(2, 2, c);

    naive_gemm(alpha, &a, &b, beta, &mut c);
    assert_eq!(c.as_slice(), expect);
}

#[test]
fn fixed_3() {
    let a = vec![1, 0, 2, 0, -1, 3];
    let a = MatRef::row_major(2, 3, a);
    let b = vec![2, -1, 0, 5, 1, 1];
    let b = MatRef::row_major(3, 2, b);

    let mut c = MatMut::row_major(2, 2, vec![-9; 4]);
    let expect = [4, 1, 3, -2];
    naive_gemm(1, &a, &b, 0, &mut c);
    assert_eq!(c.as_slice(), expect);
}

#[test]
fn gemm_padded_tail_blocks() {
    // Dimensions that are not multiples of the register tile, so every
    // trailing block is padded, against the naive reference.
    let kernel = Generic4x4Kernel::new();
    let (m, k, n) = (5, 7, 3);
    let a_vals: Vec<i64> = (0..(m * k) as i64).map(|x| 3 - x).collect();
    let b_vals: Vec<i64> = (0..(k * n) as i64).map(|x| x * x - 10).collect();
    let c_vals: Vec<i64> = (0..(m * n) as i64).map(|x| 2 * x - 7).collect();

    let a = MatRef::row_major(m, k, a_vals);
    let b = MatRef::col_major(k, n, b_vals);
    let mut c = MatMut::row_major(m, n, c_vals.clone());
    let mut expect = MatMut::row_major(m, n, c_vals);

    let pack_sizes = PackSizes {
        mc: 4,
        kc: 3,
        nc: 8,
    };
    let mut buf = vec![0; pack_sizes.buf_len()];

    kernel.gemm(7, &a, &b, -2, &mut c, &pack_sizes, &mut buf);
    naive_gemm(7, &a, &b, -2, &mut expect);
    assert_eq!(c.as_slice(), expect.as_slice());
}

#[test]
fn gemm_rejects_bad_descriptor() {
    // A descriptor whose mc is not a multiple of the kernel's MR fails
    // validation before any packing or computation.
    let a = MatRef::row_major(4, 4, vec![1; 16]);
    let b = MatRef::row_major(4, 4, vec![1; 16]);
    let c = MatRef::row_major(4, 4, vec![1; 16]);

    let bad = PackSizes {
        mc: 6,
        kc: 2,
        nc: 4,
    };
    assert!(!bad.check(4, 4));
    assert!(!gemm_check_args(4, 4, &a, &b, &c, &bad, bad.buf_len()));

    let good = PackSizes {
        mc: 8,
        kc: 2,
        nc: 4,
    };
    assert!(good.check(4, 4));
    assert!(gemm_check_args(4, 4, &a, &b, &c, &good, good.buf_len()));

    let bad_nc = PackSizes {
        mc: 8,
        kc: 2,
        nc: 5,
    };
    assert!(!bad_nc.check(4, 4));
    assert!(!gemm_check_args(4, 4, &a, &b, &c, &bad_nc, bad_nc.buf_len()));
}

#[test]
fn gemm_rejects_degenerate_depth() {
    // k = 0 is not a supported case: a matrix view with zero columns
    // cannot even be constructed, and the argument check refuses a
    // mismatched depth.
    assert!(MatRef::from_parts(2, 0, vec![], 0, 1).is_none());
    assert!(MatRef::from_parts(0, 2, vec![], 1, 0).is_none());

    let a = MatRef::row_major(2, 3, vec![1; 6]);
    let b = MatRef::row_major(4, 2, vec![1; 8]);
    let c = MatRef::row_major(2, 2, vec![1; 4]);
    let pack_sizes = PackSizes {
        mc: 2,
        kc: 2,
        nc: 2,
    };
    // a.ncols != b.nrows: the shapes do not admit a product.
    assert!(!gemm_check_args(
        2,
        2,
        &a,
        &b,
        &c,
        &pack_sizes,
        pack_sizes.buf_len()
    ));
}

#[test]
fn gemm_wrong_scratch_length_rejected() {
    let a = MatRef::row_major(4, 4, vec![1; 16]);
    let b = MatRef::row_major(4, 4, vec![1; 16]);
    let c = MatRef::row_major(4, 4, vec![1; 16]);
    let pack_sizes = PackSizes {
        mc: 4,
        kc: 2,
        nc: 4,
    };
    assert!(gemm_check_args(
        4,
        4,
        &a,
        &b,
        &c,
        &pack_sizes,
        pack_sizes.buf_len()
    ));
    assert!(!gemm_check_args(
        4,
        4,
        &a,
        &b,
        &c,
        &pack_sizes,
        pack_sizes.buf_len() + 1
    ));
}

#[test]
fn block_sizes_check() {
    let good = BlockSizes {
        mc: 8,
        mr: 4,
        kc: 2,
        nc: 8,
        nr: 4,
    };
    assert!(good.check());
    let bad = BlockSizes {
        mc: 6,
        mr: 4,
        kc: 2,
        nc: 8,
        nr: 4,
    };
    assert!(!bad.check());
}
