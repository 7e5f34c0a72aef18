use microgemm::packing::pack_a;
use microgemm::packing::pack_b;
use microgemm::packing::registers_from_c;
use microgemm::packing::registers_to_c;
use microgemm::packing::ColMajor;
use microgemm::packing::RowMajor;
use microgemm::Layout;
use microgemm::MatMut;
use microgemm::MatRef;
use microgemm::PackSizes;

fn row_major_window(mat: &MatRef, r0: usize, r1: usize, c0: usize, c1: usize) -> Vec<i64> {
    let mut w = RowMajor(vec![-1; (r1 - r0) * (c1 - c0)]);
    w.init_from(mat, r0, r1, c0, c1);
    w.0
}

fn col_major_window(mat: &MatRef, r0: usize, r1: usize, c0: usize, c1: usize) -> Vec<i64> {
    let mut w = ColMajor(vec![-1; (r1 - r0) * (c1 - c0)]);
    w.init_from(mat, r0, r1, c0, c1);
    w.0
}

fn registers_window(mat: &MatRef, r0: usize, r1: usize, c0: usize, c1: usize) -> Vec<i64> {
    let mut buf = vec![-1; (r1 - r0) * (c1 - c0)];
    registers_from_c(&mut buf, mat, r0, r1, c0, c1);
    buf
}

#[test]
fn block_row_major_block_2x2() {
    let a = MatRef::new(2, 2, vec![1, 2, 3, 4], Layout::RowMajor);
    let block = |r0: usize, r1: usize, c0: usize, c1: usize| row_major_window(&a, r0, r1, c0, c1);

    assert_eq!(block(0, 2, 0, 2), a.as_slice());

    assert_eq!(block(0, 1, 0, 1), [1]);
    assert_eq!(block(0, 1, 1, 2), [2]);
    assert_eq!(block(1, 2, 0, 1), [3]);
    assert_eq!(block(1, 2, 1, 2), [4]);

    assert_eq!(block(0, 1, 0, 3), [1, 2, 0]);
    assert_eq!(block(0, 1, 0, 4), [1, 2, 0, 0]);
    assert_eq!(block(0, 1, 0, 5), [1, 2, 0, 0, 0]);

    assert_eq!(block(1, 2, 0, 3), [3, 4, 0]);
    assert_eq!(block(1, 2, 0, 4), [3, 4, 0, 0]);
    assert_eq!(block(1, 2, 0, 5), [3, 4, 0, 0, 0]);

    assert_eq!(block(0, 2, 0, 1), [1, 3]);
    assert_eq!(block(0, 3, 0, 1), [1, 3, 0]);
    assert_eq!(block(0, 4, 0, 1), [1, 3, 0, 0]);
    assert_eq!(block(0, 5, 0, 1), [1, 3, 0, 0, 0]);

    assert_eq!(block(0, 2, 1, 2), [2, 4]);
    assert_eq!(block(0, 3, 1, 2), [2, 4, 0]);
    assert_eq!(block(0, 4, 1, 2), [2, 4, 0, 0]);
    assert_eq!(block(0, 5, 1, 2), [2, 4, 0, 0, 0]);

    assert_eq!(block(0, 3, 0, 3), [1, 2, 0, 3, 4, 0, 0, 0, 0]);
    assert_eq!(block(0, 3, 0, 4), [1, 2, 0, 0, 3, 4, 0, 0, 0, 0, 0, 0]);
    assert_eq!(
        block(0, 4, 0, 4),
        [1, 2, 0, 0, 3, 4, 0, 0, 0, 0, 0, 0, 0, 0, 0, 0]
    );

    assert_eq!(block(1, 3, 0, 3), [3, 4, 0, 0, 0, 0]);
    assert_eq!(block(1, 3, 1, 3), [4, 0, 0, 0]);
    assert_eq!(block(0, 3, 1, 3), [2, 0, 4, 0, 0, 0]);
}

#[test]
fn block_col_major_block_2x2() {
    let b = MatRef::new(2, 2, vec![1, 2, 3, 4], Layout::RowMajor);
    let block = |r0: usize, r1: usize, c0: usize, c1: usize| col_major_window(&b, r0, r1, c0, c1);

    assert_eq!(block(0, 2, 0, 2), [1, 3, 2, 4]);

    assert_eq!(block(0, 1, 0, 1), [1]);
    assert_eq!(block(0, 1, 1, 2), [2]);
    assert_eq!(block(1, 2, 0, 1), [3]);
    assert_eq!(block(1, 2, 1, 2), [4]);

    assert_eq!(block(0, 1, 0, 3), [1, 2, 0]);
    assert_eq!(block(0, 1, 0, 4), [1, 2, 0, 0]);
    assert_eq!(block(0, 1, 0, 5), [1, 2, 0, 0, 0]);

    assert_eq!(block(1, 2, 0, 3), [3, 4, 0]);
    assert_eq!(block(1, 2, 0, 4), [3, 4, 0, 0]);
    assert_eq!(block(1, 2, 0, 5), [3, 4, 0, 0, 0]);

    assert_eq!(block(0, 2, 0, 1), [1, 3]);
    assert_eq!(block(0, 3, 0, 1), [1, 3, 0]);
    assert_eq!(block(0, 4, 0, 1), [1, 3, 0, 0]);
    assert_eq!(block(0, 5, 0, 1), [1, 3, 0, 0, 0]);

    assert_eq!(block(0, 2, 1, 2), [2, 4]);
    assert_eq!(block(0, 3, 1, 2), [2, 4, 0]);
    assert_eq!(block(0, 4, 1, 2), [2, 4, 0, 0]);
    assert_eq!(block(0, 5, 1, 2), [2, 4, 0, 0, 0]);

    assert_eq!(block(0, 3, 0, 3), [1, 3, 0, 2, 4, 0, 0, 0, 0]);
    assert_eq!(block(0, 3, 0, 4), [1, 3, 0, 2, 4, 0, 0, 0, 0, 0, 0, 0]);
    assert_eq!(
        block(0, 4, 0, 4),
        [1, 3, 0, 0, 2, 4, 0, 0, 0, 0, 0, 0, 0, 0, 0, 0]
    );

    assert_eq!(block(1, 3, 0, 3), [3, 0, 4, 0, 0, 0]);
    assert_eq!(block(1, 3, 1, 3), [4, 0, 0, 0]);
    assert_eq!(block(0, 3, 1, 3), [2, 4, 0, 0, 0, 0]);
}

#[test]
fn colmajor_col_major_block_2x2() {
    let b = MatRef::new(2, 2, vec![1, 2, 3, 4], Layout::RowMajor);
    let block = |r0: usize, r1: usize, c0: usize, c1: usize| col_major_window(&b, r0, r1, c0, c1);

    assert_eq!(block(0, 2, 0, 2), [1, 3, 2, 4]);

    assert_eq!(block(0, 1, 0, 1), [1]);
    assert_eq!(block(0, 1, 1, 2), [2]);
    assert_eq!(block(1, 2, 0, 1), [3]);
    assert_eq!(block(1, 2, 1, 2), [4]);

    assert_eq!(block(0, 1, 0, 3), [1, 2, 0]);
    assert_eq!(block(0, 1, 0, 4), [1, 2, 0, 0]);
    assert_eq!(block(0, 1, 0, 5), [1, 2, 0, 0, 0]);

    assert_eq!(block(1, 2, 0, 3), [3, 4, 0]);
    assert_eq!(block(1, 2, 0, 4), [3, 4, 0, 0]);
    assert_eq!(block(1, 2, 0, 5), [3, 4, 0, 0, 0]);

    assert_eq!(block(0, 2, 0, 1), [1, 3]);
    assert_eq!(block(0, 3, 0, 1), [1, 3, 0]);
    assert_eq!(block(0, 4, 0, 1), [1, 3, 0, 0]);
    assert_eq!(block(0, 5, 0, 1), [1, 3, 0, 0, 0]);

    assert_eq!(block(0, 2, 1, 2), [2, 4]);
    assert_eq!(block(0, 3, 1, 2), [2, 4, 0]);
    assert_eq!(block(0, 4, 1, 2), [2, 4, 0, 0]);
    assert_eq!(block(0, 5, 1, 2), [2, 4, 0, 0, 0]);

    assert_eq!(block(0, 3, 0, 3), [1, 3, 0, 2, 4, 0, 0, 0, 0]);
    assert_eq!(block(0, 3, 0, 4), [1, 3, 0, 2, 4, 0, 0, 0, 0, 0, 0, 0]);
    assert_eq!(
        block(0, 4, 0, 4),
        [1, 3, 0, 0, 2, 4, 0, 0, 0, 0, 0, 0, 0, 0, 0, 0]
    );

    assert_eq!(block(1, 3, 0, 3), [3, 0, 4, 0, 0, 0]);
    assert_eq!(block(1, 3, 1, 3), [4, 0, 0, 0]);
    assert_eq!(block(0, 3, 1, 3), [2, 4, 0, 0, 0, 0]);
}

#[test]
fn rowmajor_row_major_block_2x2() {
    let a = MatRef::new(2, 2, vec![1, 2, 3, 4], Layout::RowMajor);
    let block = |r0: usize, r1: usize, c0: usize, c1: usize| row_major_window(&a, r0, r1, c0, c1);

    assert_eq!(block(0, 2, 0, 2), a.as_slice());

    assert_eq!(block(0, 1, 0, 1), [1]);
    assert_eq!(block(0, 1, 1, 2), [2]);
    assert_eq!(block(1, 2, 0, 1), [3]);
    assert_eq!(block(1, 2, 1, 2), [4]);

    assert_eq!(block(0, 1, 0, 3), [1, 2, 0]);
    assert_eq!(block(0, 1, 0, 4), [1, 2, 0, 0]);
    assert_eq!(block(0, 1, 0, 5), [1, 2, 0, 0, 0]);

    assert_eq!(block(1, 2, 0, 3), [3, 4, 0]);
    assert_eq!(block(1, 2, 0, 4), [3, 4, 0, 0]);
    assert_eq!(block(1, 2, 0, 5), [3, 4, 0, 0, 0]);

    assert_eq!(block(0, 2, 0, 1), [1, 3]);
    assert_eq!(block(0, 3, 0, 1), [1, 3, 0]);
    assert_eq!(block(0, 4, 0, 1), [1, 3, 0, 0]);
    assert_eq!(block(0, 5, 0, 1), [1, 3, 0, 0, 0]);

    assert_eq!(block(0, 2, 1, 2), [2, 4]);
    assert_eq!(block(0, 3, 1, 2), [2, 4, 0]);
    assert_eq!(block(0, 4, 1, 2), [2, 4, 0, 0]);
    assert_eq!(block(0, 5, 1, 2), [2, 4, 0, 0, 0]);

    assert_eq!(block(0, 3, 0, 3), [1, 2, 0, 3, 4, 0, 0, 0, 0]);
    assert_eq!(block(0, 3, 0, 4), [1, 2, 0, 0, 3, 4, 0, 0, 0, 0, 0, 0]);
    assert_eq!(
        block(0, 4, 0, 4),
        [1, 2, 0, 0, 3, 4, 0, 0, 0, 0, 0, 0, 0, 0, 0, 0]
    );

    assert_eq!(block(1, 3, 0, 3), [3, 4, 0, 0, 0, 0]);
    assert_eq!(block(1, 3, 1, 3), [4, 0, 0, 0]);
    assert_eq!(block(0, 3, 1, 3), [2, 0, 4, 0, 0, 0]);
}

#[test]
fn registers_col_major_block_2x2() {
    let c = MatRef::row_major(2, 2, vec![1, 2, 3, 4]);
    let block = |r0: usize, r1: usize, c0: usize, c1: usize| registers_window(&c, r0, r1, c0, c1);

    assert_eq!(block(0, 2, 0, 2), [1, 3, 2, 4]);

    assert_eq!(block(0, 1, 0, 1), [1]);
    assert_eq!(block(0, 1, 1, 2), [2]);
    assert_eq!(block(1, 2, 0, 1), [3]);
    assert_eq!(block(1, 2, 1, 2), [4]);

    assert_eq!(block(0, 1, 0, 3), [1, 2, 0]);
    assert_eq!(block(0, 1, 0, 4), [1, 2, 0, 0]);
    assert_eq!(block(0, 1, 0, 5), [1, 2, 0, 0, 0]);

    assert_eq!(block(1, 2, 0, 3), [3, 4, 0]);
    assert_eq!(block(1, 2, 0, 4), [3, 4, 0, 0]);
    assert_eq!(block(1, 2, 0, 5), [3, 4, 0, 0, 0]);

    assert_eq!(block(0, 2, 0, 1), [1, 3]);
    assert_eq!(block(0, 3, 0, 1), [1, 3, 0]);
    assert_eq!(block(0, 4, 0, 1), [1, 3, 0, 0]);
    assert_eq!(block(0, 5, 0, 1), [1, 3, 0, 0, 0]);

    assert_eq!(block(0, 2, 1, 2), [2, 4]);
    assert_eq!(block(0, 3, 1, 2), [2, 4, 0]);
    assert_eq!(block(0, 4, 1, 2), [2, 4, 0, 0]);
    assert_eq!(block(0, 5, 1, 2), [2, 4, 0, 0, 0]);

    assert_eq!(block(0, 3, 0, 3), [1, 3, 0, 2, 4, 0, 0, 0, 0]);
    assert_eq!(block(0, 3, 0, 4), [1, 3, 0, 2, 4, 0, 0, 0, 0, 0, 0, 0]);
    assert_eq!(
        block(0, 4, 0, 4),
        [1, 3, 0, 0, 2, 4, 0, 0, 0, 0, 0, 0, 0, 0, 0, 0]
    );

    assert_eq!(block(1, 3, 0, 3), [3, 0, 4, 0, 0, 0]);
    assert_eq!(block(1, 3, 1, 3), [4, 0, 0, 0]);
    assert_eq!(block(0, 3, 1, 3), [2, 4, 0, 0, 0, 0]);
}

#[test]
fn test_pack_a_1() {
    let a = vec![0, 1, 2, 3, 4, 5, 6, 7, 8, 9, 10, 11, 12, 13, 14, 15];
    let a = MatRef::row_major(4, 4, a);

    let mut apack = vec![-1; 4 * 3];
    pack_a(2, &mut apack, &a, 0, 4, 0, 3);
    assert_eq!(apack, [0, 4, 1, 5, 2, 6, 8, 12, 9, 13, 10, 14]);

    let mut apack = vec![-1; 4 * 3];
    pack_a(2, &mut apack, &a, 1, 5, 0, 3);
    assert_eq!(apack, [4, 8, 5, 9, 6, 10, 12, 0, 13, 0, 14, 0]);

    let mut apack = vec![-1; 4 * 2];
    pack_a(2, &mut apack, &a, 0, 4, 1, 3);
    assert_eq!(apack, [1, 5, 2, 6, 9, 13, 10, 14]);
}

#[test]
fn test_pack_b_1() {
    let b = vec![0, 1, 2, 3, 4, 5, 6, 7, 8, 9, 10, 11, 12, 13, 14, 15];
    let b = MatRef::row_major(4, 4, b);

    // Two row-major sub-blocks of shape 2 x 2 over rows 0..2.
    let mut bpack = vec![-1; 2 * 4];
    pack_b(2, &mut bpack, &b, 0, 2, 0, 4);
    assert_eq!(bpack, [0, 1, 4, 5, 2, 3, 6, 7]);

    // Columns running past the matrix are zero-padded.
    let mut bpack = vec![-1; 2 * 4];
    pack_b(2, &mut bpack, &b, 0, 2, 2, 6);
    assert_eq!(bpack, [2, 3, 6, 7, 0, 0, 0, 0]);
}

#[test]
fn test_pack_sizes_bug_len() {
    let [mc, kc, nc] = [3, 2, 5];
    let pack_sizes = PackSizes { mc, kc, nc };
    assert_eq!(pack_sizes.buf_len(), pack_sizes.checked_buf_len().unwrap());
}

#[test]
fn test_checked_buf_len_overflow() {
    let pack_sizes = PackSizes {
        mc: usize::MAX,
        kc: 2,
        nc: 1,
    };
    assert!(pack_sizes.checked_buf_len().is_none());
}

#[test]
fn test_split_buf_regions() {
    let pack_sizes = PackSizes {
        mc: 2,
        kc: 3,
        nc: 4,
    };
    let buf: Vec<i64> = (0..18).collect();
    let (apack, bpack) = pack_sizes.split_buf(&buf);
    assert_eq!(apack, (0..6).collect::<Vec<i64>>());
    assert_eq!(bpack, (6..18).collect::<Vec<i64>>());
}

#[test]
fn test_tile_round_trip() {
    // Load a fully in-bounds tile and store it straight back: the
    // destination is reproduced exactly.
    let vals: Vec<i64> = (1..=12).collect();
    let mut c = MatMut::row_major(3, 4, vals.clone());
    let mut regs = vec![0; 4];
    registers_from_c(&mut regs, &c, 1, 3, 1, 3);
    registers_to_c(&regs, &mut c, 1, 3, 1, 3);
    assert_eq!(c.as_slice(), vals.as_slice());
}

#[test]
fn test_store_tile_clips() {
    // A tile hanging over the right and bottom edges only writes the
    // in-bounds positions.
    let mut c = MatMut::row_major(2, 2, vec![1, 2, 3, 4]);
    let regs = vec![9, 8, 7, 6]; // col-major 2x2 tile at (1, 1)
    registers_to_c(&regs, &mut c, 1, 3, 1, 3);
    assert_eq!(c.as_slice(), [1, 2, 3, 9]);
}
