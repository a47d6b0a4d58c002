use quilt_transform::matrix::{dot, matmul, matmul_replace, product_fits, Matrix};

fn entries(m: &Matrix<i64>) -> Vec<Vec<i64>> {
    let mut rows = Vec::new();
    for r in 0..m.rowc() {
        let mut row = Vec::new();
        for c in 0..m.colc() {
            row.push(m.get_col(c)[r]);
        }
        rows.push(row);
    }
    rows
}

#[test]
fn new_uniform_fills_every_cell() {
    let m = Matrix::new_uniform(2, 3, 7i64);
    assert_eq!(m.rowc(), 2);
    assert_eq!(m.colc(), 3);
    assert_eq!(entries(&m), vec![vec![7, 7, 7], vec![7, 7, 7]]);
}

#[test]
fn new_fills_with_default() {
    let m: Matrix<i64> = Matrix::new(3, 2);
    assert_eq!(entries(&m), vec![vec![0, 0], vec![0, 0], vec![0, 0]]);
}

#[test]
fn literal_is_stored_by_column() {
    let m = Matrix::literal([[1i64, 2, 3], [4, 5, 6]]);
    assert_eq!(m.rowc(), 2);
    assert_eq!(m.colc(), 3);
    assert_eq!(m.get_col(0), &[1, 4]);
    assert_eq!(m.get_col(1), &[2, 5]);
    assert_eq!(m.get_col(2), &[3, 6]);
}

#[test]
fn transpose_swaps_rows_and_columns() {
    let m = Matrix::literal([[1i64, 2, 3], [4, 5, 6]]);
    let t = m.transpose();
    assert_eq!(t.rowc(), 3);
    assert_eq!(t.colc(), 2);
    assert_eq!(entries(&t), vec![vec![1, 4], vec![2, 5], vec![3, 6]]);
}

#[test]
fn transpose_twice_is_identity() {
    let m = Matrix::literal([[1i64, -2, 3, 9], [4, 5, -6, 0], [7, 8, 9, 10]]);
    let before = entries(&m);
    let tt = m.clone().transpose().transpose();
    assert_eq!(tt.rowc(), 3);
    assert_eq!(tt.colc(), 4);
    assert_eq!(entries(&tt), before);
}

#[test]
fn get_col_mut_writes_through() {
    let mut m = Matrix::new_uniform(2, 2, 0i64);
    {
        let col = m.get_col_mut(1);
        col[0] = 8;
        col[1] = 9;
    }
    assert_eq!(entries(&m), vec![vec![0, 8], vec![0, 9]]);
}

#[test]
fn map_keeps_shape() {
    let m = Matrix::literal([[1u8, 2], [3, 255]]);
    let wide: Matrix<i64> = m.map(|b| i64::from(*b) * 2);
    assert_eq!(wide.rowc(), 2);
    assert_eq!(wide.colc(), 2);
    assert_eq!(entries(&wide), vec![vec![2, 4], vec![6, 510]]);
}

#[test]
fn dot_sums_products() {
    assert_eq!(dot(&[1, 2, 3], &[4, -5, 6]), 12);
    assert_eq!(dot(&[], &[]), 0);
}

#[test]
fn matmul_two_by_two() {
    let a = Matrix::literal([[1i64, 2], [3, 4]]);
    let b = Matrix::literal([[5i64, 6], [7, 8]]);
    let mut out = Matrix::new(2, 2);
    matmul(&a, &b, &mut out);
    assert_eq!(entries(&out), vec![vec![19, 22], vec![43, 50]]);
}

#[test]
fn matmul_rectangular() {
    let a = Matrix::literal([[1i64, 0, 2], [0, 1, 3]]);
    let b = Matrix::literal([[1i64, 2], [3, 4], [5, 6]]);
    let mut out = Matrix::new(2, 2);
    matmul(&a, &b, &mut out);
    assert_eq!(entries(&out), vec![vec![11, 14], vec![18, 22]]);
}

#[test]
fn identity_on_both_sides() {
    let id = Matrix::literal([[1i64, 0, 0], [0, 1, 0], [0, 0, 1]]);
    let m = Matrix::literal([[2i64, -3, 4, 5], [6, 7, -8, 9], [1, 1, 1, 1]]);
    let mut left = m.clone();
    matmul_replace(&id, &mut left);
    assert_eq!(entries(&left), entries(&m));

    let id4 = Matrix::literal([[1i64, 0, 0, 0], [0, 1, 0, 0], [0, 0, 1, 0], [0, 0, 0, 1]]);
    let mut right = Matrix::new(3, 4);
    matmul(&m, &id4, &mut right);
    assert_eq!(entries(&right), entries(&m));
}

#[test]
fn matmul_replace_translates_points() {
    let t = Matrix::literal([[1i64, 0, 250], [0, 1, 100], [0, 0, 1]]);
    let mut pts = Matrix::literal([[0i64, 2], [0, 3], [1, 1]]);
    matmul_replace(&t, &mut pts);
    assert_eq!(entries(&pts), vec![vec![250, 252], vec![100, 103], vec![1, 1]]);
}

#[test]
fn matmul_replace_changes_row_count() {
    let t = Matrix::literal([[1i64, 1, 1]]);
    let mut pts = Matrix::literal([[1i64, 2], [3, 4], [5, 6]]);
    matmul_replace(&t, &mut pts);
    assert_eq!(pts.rowc(), 1);
    assert_eq!(entries(&pts), vec![vec![9, 12]]);
}

#[test]
fn colour_negative_transform() {
    let colours = Matrix::literal([[10u8, 200], [20, 0], [30, 255], [1, 1]]);
    let mut wide: Matrix<i64> = colours.map(|b| i64::from(*b));
    let negative = Matrix::literal([
        [-1i64, 0, 0, 255],
        [0, -1, 0, 255],
        [0, 0, -1, 255],
        [0, 0, 0, 1],
    ]);
    matmul_replace(&negative, &mut wide);
    assert_eq!(entries(&wide), vec![vec![245, 55], vec![235, 255], vec![225, 0], vec![1, 1]]);
}

#[test]
fn product_fits_detects_overflow() {
    let a = Matrix::literal([[i64::MAX, 1]]);
    let ok = Matrix::literal([[1i64], [0]]);
    let too_big = Matrix::literal([[1i64], [1]]);
    let huge = Matrix::literal([[2i64], [0]]);
    assert!(product_fits(&a, &ok));
    assert!(!product_fits(&a, &too_big));
    assert!(!product_fits(&a, &huge));
    let id = Matrix::literal([[1i64, 0], [0, 1]]);
    assert!(product_fits(&id, &Matrix::literal([[i64::MIN, 3], [4, i64::MAX]])));
}
