//! Matrices, minors and cross updates.

use ghr::matrix::Matrix;
use ghr::minor::{assign_cross, remove_row_1d, remove_row_col};

fn counting(rows: usize, cols: usize) -> Matrix<i64> {
    Matrix::from_vec(rows, cols, (0..(rows * cols) as i64).collect()).unwrap()
}

#[test]
fn filled_matrix() {
    let m = Matrix::filled(2, 3, 7u8).unwrap();
    assert_eq!((m.rows(), m.cols(), m.size()), (2, 3, 6));
    assert_eq!(m.as_slice(), &[7, 7, 7, 7, 7, 7]);
    assert!(Matrix::filled(usize::MAX, 2, 0u8).is_none());
    let empty = Matrix::filled(0, 5, 1u8).unwrap();
    assert_eq!((empty.rows(), empty.cols(), empty.size()), (0, 5, 0));
}

#[test]
fn scalar_matrix() {
    let eye = Matrix::scalar(3, 1i32, 0i32).unwrap();
    assert_eq!(eye.into_vec(), vec![1, 0, 0, 0, 1, 0, 0, 0, 1]);
    assert_eq!(Matrix::scalar(1, 5i32, 9i32).unwrap().into_vec(), vec![5]);
    assert_eq!(Matrix::scalar(0, 5i32, 9i32).unwrap().size(), 0);
    assert!(Matrix::scalar(usize::MAX, 1u8, 0u8).is_none());
}

#[test]
fn matrix_from_vec_checks_the_length() {
    assert!(Matrix::from_vec(2, 2, vec![1, 2, 3]).is_none());
    assert!(Matrix::from_vec(2, 2, vec![1, 2, 3, 4, 5]).is_none());
    assert!(Matrix::from_vec(usize::MAX, 2, vec![1, 2]).is_none());
    let m = Matrix::from_vec(2, 2, vec![1, 2, 3, 4]).unwrap();
    assert_eq!((m.get(0, 0), m.get(0, 1), m.get(1, 0), m.get(1, 1)), (1, 2, 3, 4));
}

#[test]
fn matrix_is_row_major() {
    let mut m = counting(2, 3);
    assert_eq!(m.get(1, 0), 3);
    assert_eq!(m.get(0, 2), 2);
    m.set(1, 1, -1);
    assert_eq!(m.as_slice(), &[0, 1, 2, 3, -1, 5]);
    assert_eq!(m.column(1), vec![1, -1]);
    assert_eq!(m.column(2), vec![2, 5]);
}

#[test]
fn remove_entry_of_a_vector() {
    let m = vec![10, 11, 12, 13];
    let mut dst = vec![0; 3];
    remove_row_1d(&mut dst, &m, 0);
    assert_eq!(dst, vec![11, 12, 13]);
    remove_row_1d(&mut dst, &m, 2);
    assert_eq!(dst, vec![10, 11, 13]);
    remove_row_1d(&mut dst, &m, 3);
    assert_eq!(dst, vec![10, 11, 12]);
    let mut none: Vec<i32> = Vec::new();
    remove_row_1d(&mut none, &vec![5], 0);
    assert!(none.is_empty());
}

#[test]
fn remove_row_and_column() {
    let m = counting(3, 3);
    let mut dst = Matrix::filled(2, 2, 0i64).unwrap();
    remove_row_col(&mut dst, &m, 0);
    assert_eq!(dst.as_slice(), &[4, 5, 7, 8]);
    remove_row_col(&mut dst, &m, 1);
    assert_eq!(dst.as_slice(), &[0, 2, 6, 8]);
    remove_row_col(&mut dst, &m, 2);
    assert_eq!(dst.as_slice(), &[0, 1, 3, 4]);
}

#[test]
fn remove_row_and_column_of_a_wide_matrix() {
    let m = counting(2, 4);
    let mut dst = Matrix::filled(1, 3, 0i64).unwrap();
    remove_row_col(&mut dst, &m, 1);
    assert_eq!(dst.as_slice(), &[0, 2, 3]);
    let one = counting(1, 1);
    let mut nothing = Matrix::filled(0, 0, 0i64).unwrap();
    remove_row_col(&mut nothing, &one, 0);
    assert_eq!(nothing.size(), 0);
}

#[test]
fn cross_is_written_around_the_diagonal() {
    let mut x = Matrix::scalar(4, 1i64, 0i64).unwrap();
    assign_cross(&mut x, 1, &vec![-10, -20, -30], &vec![10, 20, 30]);
    assert_eq!(
        x.as_slice(),
        &[1, 10, 0, 0, -10, 1, -20, -30, 0, 20, 1, 0, 0, 30, 0, 1]
    );
    assign_cross(&mut x, 0, &vec![7, 8, 9], &vec![4, 5, 6]);
    assert_eq!(
        x.as_slice(),
        &[1, 7, 8, 9, 4, 1, -20, -30, 5, 20, 1, 0, 6, 30, 0, 1]
    );
    assign_cross(&mut x, 3, &vec![0, 0, 0], &vec![0, 0, 0]);
    assert_eq!(
        x.as_slice(),
        &[1, 7, 8, 0, 4, 1, -20, 0, 5, 20, 1, 0, 0, 0, 0, 1]
    );
}

#[test]
fn cross_of_a_single_entry_is_empty() {
    let mut x = Matrix::scalar(1, 3i64, 0i64).unwrap();
    assign_cross(&mut x, 0, &vec![], &vec![]);
    assert_eq!(x.as_slice(), &[3]);
}

#[test]
fn minor_and_cross_fit_together() {
    let m = counting(4, 4);
    let mut minor = Matrix::filled(3, 3, 0i64).unwrap();
    for i in 0..4 {
        remove_row_col(&mut minor, &m, i);
        let mut rebuilt = Matrix::filled(4, 4, -1i64).unwrap();
        let mut row = vec![0; 3];
        let mut col = vec![0; 3];
        let full_row: Vec<i64> = (0..4).map(|c| m.get(i, c)).collect();
        remove_row_1d(&mut row, &full_row, i);
        remove_row_1d(&mut col, &m.column(i), i);
        assign_cross(&mut rebuilt, i, &row, &col);
        for r in 0..4 {
            for c in 0..4 {
                if r == i && c == i {
                    assert_eq!(rebuilt.get(r, c), -1);
                } else if r == i || c == i {
                    assert_eq!(rebuilt.get(r, c), m.get(r, c));
                } else {
                    let a = if r < i { r } else { r - 1 };
                    let b = if c < i { c } else { c - 1 };
                    assert_eq!(minor.get(a, b), m.get(r, c));
                }
            }
        }
    }
}
