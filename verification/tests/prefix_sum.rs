use weekly_drills::prefix_sum::NumMatrix;

#[test]
fn test_num_matrix_1() {
    let matrix = NumMatrix::new(&[
        vec![3, 0, 1, 4, 2],
        vec![5, 6, 3, 2, 1],
        vec![1, 2, 0, 1, 5],
        vec![4, 1, 0, 1, 7],
        vec![1, 0, 3, 0, 5],
    ]);

    assert_eq!(matrix.sum_region(2, 1, 4, 3), 8);
    assert_eq!(matrix.sum_region(1, 1, 2, 2), 11);
    assert_eq!(matrix.sum_region(1, 2, 2, 4), 12);
}

#[test]
fn test_num_matrix_all1s() {
    let matrix = NumMatrix::new(&[vec![1; 5], vec![1; 5], vec![1; 5], vec![1; 5], vec![1; 5]]);

    assert_eq!(matrix.sum_region(0, 0, 1, 1), 4);
    assert_eq!(matrix.sum_region(0, 0, 3, 3), 16);
    assert_eq!(matrix.sum_region(0, 0, 4, 4), 25);
}

#[test]
fn test_num_matrix_all0s() {
    let matrix = NumMatrix::new(&[vec![0; 5], vec![0; 5], vec![0; 5], vec![0; 5], vec![0; 5]]);

    assert_eq!(matrix.sum_region(0, 0, 3, 3), 0);
}

#[test]
fn num_matrix_single_cells_and_negative_numbers() {
    let matrix = NumMatrix::new(&[vec![-3, 7], vec![5, -11]]);
    assert_eq!(matrix.sum_region(0, 0, 0, 0), -3);
    assert_eq!(matrix.sum_region(0, 1, 0, 1), 7);
    assert_eq!(matrix.sum_region(1, 0, 1, 0), 5);
    assert_eq!(matrix.sum_region(1, 1, 1, 1), -11);
    assert_eq!(matrix.sum_region(0, 0, 1, 1), -2);
    assert_eq!(matrix.sum_region(0, 1, 1, 1), -4);
}

#[test]
fn checked_new_refuses_what_cannot_be_summed() {
    assert!(NumMatrix::checked_new(&[]).is_none());
    assert!(NumMatrix::checked_new(&[vec![1, 2], vec![3]]).is_none());
    assert!(NumMatrix::checked_new(&[vec![1], vec![3, 4]]).is_none());
    assert!(NumMatrix::checked_new(&[vec![i32::MAX, 1]]).is_none());
    assert!(NumMatrix::checked_new(&[vec![i32::MIN], vec![-1]]).is_none());
    assert!(NumMatrix::checked_new(&[vec![i32::MAX, -1]]).is_some());
    assert!(NumMatrix::checked_new(&[vec![1, 0], vec![0, i32::MAX]]).is_none());
    assert!(NumMatrix::checked_new(&[vec![i32::MAX], vec![i32::MIN]]).is_some());
    assert!(NumMatrix::checked_new(&[vec![], vec![]]).is_some());
}

#[test]
fn checked_sum_region_refuses_bad_corners_and_large_sums() {
    let matrix = NumMatrix::new(&[vec![i32::MIN, i32::MAX, 1], vec![0, 0, 0]]);
    assert_eq!(matrix.checked_sum_region(0, 0, 0, 1), Some(-1));
    assert_eq!(matrix.checked_sum_region(0, 0, 1, 2), Some(0));
    assert_eq!(matrix.checked_sum_region(0, 1, 0, 2), None);
    assert_eq!(matrix.checked_sum_region(0, 1, 0, 1), Some(i32::MAX));
    assert_eq!(matrix.checked_sum_region(1, 0, 0, 0), None);
    assert_eq!(matrix.checked_sum_region(0, 2, 0, 1), None);
    assert_eq!(matrix.checked_sum_region(0, 0, 2, 0), None);
    assert_eq!(matrix.checked_sum_region(0, 0, 0, 3), None);
}
