use microgemm::MatMut;
use microgemm::MatRef;

#[test]
fn test_mat_ref_row_major() {
    let values = vec![1, 2, 3, 4];
    let mat = MatRef::row_major(2, 2, values.clone());
    let unpack = [mat.get(0, 0), mat.get(0, 1), mat.get(1, 0), mat.get(1, 1)];
    assert_eq!(unpack.as_slice(), values.as_slice());
}

#[test]
fn test_mat_ref_col_major() {
    let values = vec![1, 3, 2, 4];
    let values_t = [1, 2, 3, 4];
    let mat = MatRef::col_major(2, 2, values);
    let unpack = [mat.get(0, 0), mat.get(0, 1), mat.get(1, 0), mat.get(1, 1)];
    assert_eq!(unpack, values_t);
}

#[test]
fn test_mat_mut() {
    let values = vec![1, 3, 2, 4];
    let mut mat = MatMut::col_major(2, 2, values);

    let unpack = [
        *mat.get_mut(0, 0),
        *mat.get_mut(0, 1),
        *mat.get_mut(1, 0),
        *mat.get_mut(1, 1),
    ];
    assert_eq!(unpack, [1, 2, 3, 4]);

    *mat.get_mut(0, 1) = -2;
    let expect = [1, 3, -2, 4];
    assert_eq!(mat.as_slice(), expect);
}

#[test]
fn test_mat_from_parts_rejects_overrun() {
    let ok = MatRef::from_parts(2, 2, vec![1, 2, 3, 4], 2, 1);
    assert!(ok.is_some());
    let too_short = MatRef::from_parts(2, 2, vec![1, 2, 3], 2, 1);
    assert!(too_short.is_none());
}

#[test]
fn test_mat_get_or_out_of_bounds() {
    let mat = MatRef::row_major(2, 2, vec![1, 2, 3, 4]);
    assert_eq!(mat.get_or(0, 1, -7), 2);
    assert_eq!(mat.get_or(2, 0, -7), -7);
    assert_eq!(mat.get_or(0, 2, -7), -7);
    assert_eq!(mat.get_or_zero(5, 5), 0);
}

#[test]
fn test_mat_general_strides() {
    // A 2x2 view of every other element of a length-6 buffer.
    let mat = MatRef::from_parts(2, 2, vec![10, 0, 11, 0, 20, 0, 21, 0], 4, 2).unwrap();
    assert_eq!(mat.get(0, 0), 10);
    assert_eq!(mat.get(0, 1), 11);
    assert_eq!(mat.get(1, 0), 20);
    assert_eq!(mat.get(1, 1), 21);
}
