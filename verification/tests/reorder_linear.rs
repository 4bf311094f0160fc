use lumindd::reorder_linear::LinearTransformMatrix;

#[test]
fn test_linear_transform_matrix_identity() {
    let m = LinearTransformMatrix::identity(5);
    assert!(m.is_identity());
    for i in 0..5 {
        assert!(m.get(i, i));
        for j in 0..5 {
            if i != j {
                assert!(!m.get(i, j));
            }
        }
    }
}

#[test]
fn test_linear_transform_xor_rows() {
    let mut m = LinearTransformMatrix::identity(4);
    m.xor_rows(0, 1); // row 0 = row 0 XOR row 1
    assert!(m.get(0, 0)); // identity bit
    assert!(m.get(0, 1)); // from row 1
    assert!(!m.get(0, 2));
    assert!(m.get(1, 1)); // row 1 unchanged
    assert!(!m.get(1, 0));
}

#[test]
fn test_linear_transform_decompose() {
    let mut m = LinearTransformMatrix::identity(4);
    m.xor_rows(0, 1);
    m.xor_rows(0, 3);
    let d = m.decompose(0);
    assert_eq!(d, vec![0, 1, 3]);
}

#[test]
fn linear_xor_twice_restores_identity() {
    let mut m = LinearTransformMatrix::identity(70);
    m.xor_rows(65, 2);
    assert!(!m.is_identity());
    assert_eq!(m.decompose(65), vec![2, 65]);
    m.xor_rows(65, 2);
    assert!(m.is_identity());
    assert_eq!(m.size(), 70);
}

#[test]
fn linear_xor_row_into_itself_clears_it() {
    let mut m = LinearTransformMatrix::identity(3);
    m.xor_rows(1, 1);
    assert_eq!(m.decompose(1), Vec::<usize>::new());
    assert_eq!(m.decompose(2), vec![2]);
}
