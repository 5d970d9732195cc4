use wiggle_ml::matrix::Mat;

const OR: [f32; 12] = [
    0., 0., 0., //
    0., 1., 1., //
    1., 0., 1., //
    1., 1., 1.,
];

fn mat(rows: usize, cols: usize, vals: &[f32]) -> Mat<f32> {
    let mut m = Mat::new(rows, cols);
    m.es = vals.to_vec();
    m
}

#[test]
fn new_is_zero_filled_with_the_shape() {
    let m: Mat<f32> = Mat::new(2, 3);
    assert_eq!(m.rows, 2);
    assert_eq!(m.cols, 3);
    assert_eq!(m.es, vec![0.0; 6]);
    assert!(m.fmt_name.is_none());
}

#[test]
fn new_with_no_rows_is_empty() {
    let m: Mat<f32> = Mat::new(0, 4);
    assert_eq!(m.es.len(), 0);
}

#[test]
fn set_at_writes_row_major() {
    let mut m: Mat<f32> = Mat::new(2, 3);
    m.set_at(1, 2, 5.0);
    m.set_at(0, 1, 7.0);
    assert_eq!(m.es, vec![0.0, 7.0, 0.0, 0.0, 0.0, 5.0]);
    assert_eq!(m.get_at(1, 2), 5.0);
    assert_eq!(m.get_at(0, 1), 7.0);
}

#[test]
fn get_mut_at_changes_one_cell_in_place() {
    let mut m = mat(2, 2, &[1., 2., 3., 4.]);
    *m.get_mut_at(0, 1) = 9.0;
    assert_eq!(m.es, vec![1., 9., 3., 4.]);
}

#[test]
fn apply_at_changes_one_cell() {
    let mut m = mat(2, 2, &[1., 2., 3., 4.]);
    m.apply_at(1, 0, |v| v * 10.0);
    assert_eq!(m.es, vec![1., 2., 30., 4.]);
}

#[test]
fn apply_all_and_with_all_map_every_cell() {
    let mut m = mat(2, 2, &[1., 2., 3., 4.]);
    m.apply_all(|v| v + 1.0);
    assert_eq!(m.es, vec![2., 3., 4., 5.]);
    let n = m.with_all(|v| v * 2.0);
    assert_eq!(n.es, vec![4., 6., 8., 10.]);
}

#[test]
fn fill_and_filled_set_every_cell() {
    let mut m: Mat<f32> = Mat::new(2, 2);
    m.fill(3.5);
    assert_eq!(m.es, vec![3.5; 4]);
    let n = Mat::<f32>::new(1, 3).filled(-1.0);
    assert_eq!(n.es, vec![-1.0; 3]);
}

#[test]
fn fill_from_copies_the_values() {
    let src = mat(1, 3, &[1., 2., 3.]);
    let mut m: Mat<f32> = Mat::new(1, 3);
    m.fill_from(&src);
    assert_eq!(m.es, src.es);
    let n = Mat::<f32>::new(3, 1).filled_from(&src);
    assert_eq!(n.rows, 3);
    assert_eq!(n.es, vec![1., 2., 3.]);
}

#[test]
fn dot_has_rows_of_the_left_and_cols_of_the_right() {
    let a: Mat<f32> = Mat::new(2, 3);
    let b: Mat<f32> = Mat::new(3, 4);
    let c = a.dot(&b);
    assert_eq!(c.rows, 2);
    assert_eq!(c.cols, 4);
    assert_eq!(c.es.len(), 8);
}

#[test]
fn dot_computes_the_matrix_product() {
    let a = mat(2, 2, &[1., 2., 3., 4.]);
    let b = mat(2, 2, &[5., 6., 7., 8.]);
    assert_eq!(a.dot(&b).es, vec![19., 22., 43., 50.]);
    let r = mat(1, 3, &[1., 0., 2.]);
    let w = mat(3, 2, &[1., 2., 3., 4., 5., 6.]);
    assert_eq!(r.dot(&w).es, vec![11., 14.]);
}

#[test]
fn dot_on_integers() {
    let mut a: Mat<i64> = Mat::new(1, 2);
    a.es = vec![2, -3];
    let mut b: Mat<i64> = Mat::new(2, 1);
    b.es = vec![4, 5];
    assert_eq!(a.dot(&b).es, vec![-7]);
}

#[test]
fn sum_is_commutative() {
    let a = mat(2, 2, &[0.1, 2.5, -3.0, 4.25]);
    let b = mat(2, 2, &[1.7, -0.5, 3.0, 1e-3]);
    let ab = a.sum(&b);
    let ba = b.sum(&a);
    assert_eq!(ab.es, ba.es);
    assert_eq!(ab.rows, 2);
    assert_eq!(ab.cols, 2);
}

#[test]
fn sum_adds_cell_by_cell() {
    let a = mat(1, 3, &[1., 2., 3.]);
    let b = mat(1, 3, &[10., 20., 30.]);
    assert_eq!(a.sum(&b).es, vec![11., 22., 33.]);
    let mut c = a.clone();
    c.apply_sum(&b);
    assert_eq!(c.es, vec![11., 22., 33.]);
    assert_eq!(a.summed_with(&b).es, vec![11., 22., 33.]);
}

#[test]
fn row_copies_one_row() {
    let m = mat(3, 2, &[1., 2., 3., 4., 5., 6.]);
    let r = m.row(1);
    assert_eq!(r.rows, 1);
    assert_eq!(r.cols, 2);
    assert_eq!(r.es, vec![3., 4.]);
}

#[test]
fn submat_features_round_trip() {
    let ti = Mat::<f32>::new(4, 2).submat_from(&OR, 3);
    for i in 0..4 {
        assert_eq!(ti.row(i).es, OR[i * 3..i * 3 + 2].to_vec());
    }
}

#[test]
fn submat_takes_labels_into_one_column() {
    let to = Mat::<f32>::new(4, 1).submat_from(&OR[2..], 3);
    assert_eq!(to.es, vec![0., 1., 1., 1.]);
}

#[test]
fn submat_with_stride_two_keeps_the_first_column() {
    let src = [1., 10., 2., 20., 3., 30.];
    let m = Mat::<f32>::new(3, 1).submat_from(&src, 2);
    assert_eq!(m.es, vec![1., 2., 3.]);
}

#[test]
fn submat_wide_features_drop_only_labels() {
    let src = [1., 2., 3., 9., 4., 5., 6., 9.];
    let mut m: Mat<f32> = Mat::new(2, 3);
    m.fill_from_submat(&src, 4);
    assert_eq!(m.es, vec![1., 2., 3., 4., 5., 6.]);
}

#[test]
fn submat_leaves_cells_past_the_source() {
    let mut m: Mat<f32> = Mat::new(3, 2);
    m.fill(9.0);
    m.fill_from_submat(&OR[..6], 3);
    assert_eq!(m.es, vec![0., 0., 0., 1., 9., 9.]);
}

#[test]
fn format_settings_are_kept() {
    let m = Mat::<f32>::new(1, 1)
        .fmt_pad(4)
        .fmt_mantissa(3)
        .fmt_name(String::from("ti"));
    assert_eq!(m.fmt_padding, 4);
    assert_eq!(m.fmt_mantissa, 3);
    assert_eq!(m.fmt_name, Some(String::from("ti")));
}
