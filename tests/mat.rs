use smarticles::mat::Mat2D;

#[test]
fn mat2d_filled_with() {
    let m = Mat2D::filled_with(0, 2, 3);

    assert_eq!(m, Mat2D::from_rows(vec![0, 0, 0, 0, 0, 0], 2, 3));
    assert_eq!(m.num_rows(), 2);
    assert_eq!(m.num_columns(), 3);
}

#[test]
fn mat2d_from_rows() {
    let v = vec![1, 2, 3, 4, 5, 6];

    let m = Mat2D::from_rows(v.clone(), 2, 3);

    assert_eq!(m.num_rows(), 2);
    assert_eq!(m.num_columns(), 3);
    assert_eq!(m.vec(), v);
}

#[test]
fn mat2d_index() {
    let m = Mat2D::from_rows(vec![1, 2, 3, 4, 5, 6], 2, 3);

    assert_eq!(*m.get(0, 0), 1);
    assert_eq!(*m.get(0, 2), 3);
    assert_eq!(*m.get(1, 2), 6);
}

#[test]
fn mat2d_transpose() {
    let m1 = Mat2D::from_rows(vec![1, 2, 3, 4, 5, 6], 2, 3);
    let m2 = m1.transpose();

    assert_eq!(*m2.get(0, 0), 1);
    assert_eq!(*m2.get(2, 0), 3);
    assert_eq!(*m2.get(2, 1), 6);
}

#[test]
fn mat2d_transpose_layout() {
    let m = Mat2D::from_rows(vec![1, 2, 3, 4, 5, 6], 2, 3).transpose();

    assert_eq!(m.shape(), (2, 3));
    assert_eq!(m.vec(), vec![1, 4, 2, 5, 3, 6]);
}

#[test]
fn mat2d_transpose_empty() {
    let m: Mat2D<i32> = Mat2D::from_rows(vec![], 0, 4);
    let t = m.transpose();

    assert_eq!(t.num_rows(), 4);
    assert_eq!(t.num_columns(), 0);
    assert!(t.vec().is_empty());
}

#[test]
fn mat2d_shape_is_columns_then_rows() {
    let m = Mat2D::filled_with(7u8, 2, 5);

    assert_eq!(m.shape(), (5, 2));
    assert_eq!(m.len(), 10);
}

#[test]
fn mat2d_set_changes_one_entry() {
    let mut m = Mat2D::from_rows(vec![1, 2, 3, 4, 5, 6], 2, 3);
    m.set(1, 0, 40);

    assert_eq!(m.vec(), vec![1, 2, 3, 40, 5, 6]);
}

#[test]
fn mat2d_vec_mut_edits_entries() {
    let mut m = Mat2D::from_rows(vec![1, 2, 3, 4], 2, 2);
    m.vec_mut()[3] = 9;

    assert_eq!(*m.get(1, 1), 9);
}

#[test]
fn mat2d_map_applies_to_each_entry() {
    let m = Mat2D::from_rows(vec![1.0f32, -2.0, 3.0, -4.0], 2, 2);
    let r = m.map(|x: f32| x.max(0.0));

    assert_eq!(r, Mat2D::from_rows(vec![1.0, 0.0, 3.0, 0.0], 2, 2));
}
