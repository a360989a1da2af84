use weekly_drills::spiral::{create_matrix, spiral};

#[test]
fn test_spiral1() {
    let matrix1 = vec![
        vec![1, 2, 3, 4],
        vec![5, 6, 7, 8],
        vec![9, 10, 11, 12],
        vec![13, 14, 15, 16],
    ];

    assert_eq!(
        spiral(&matrix1),
        vec![1, 2, 3, 4, 8, 12, 16, 15, 14, 13, 9, 5, 6, 7, 11, 10]
    );
}

#[test]
fn test_spiral2() {
    let matrix2 = vec![
        vec![1, 2, 3, 4, 5, 6],
        vec![7, 8, 9, 10, 11, 12],
        vec![13, 14, 15, 16, 17, 18],
    ];

    assert_eq!(
        spiral(&matrix2),
        vec![1, 2, 3, 4, 5, 6, 12, 18, 17, 16, 15, 14, 13, 7, 8, 9, 10, 11]
    );
}

#[test]
fn test_spiral_3() {
    let matrix3 = vec![vec![1, 2, 3], vec![4, 5, 6], vec![7, 8, 9]];

    assert_eq!(spiral(&matrix3), vec![1, 2, 3, 6, 9, 8, 7, 4, 5]);
}

#[test]
fn test_spiral_4() {
    let matrix = vec![vec![1, 2, 3], vec![8, 9, 4], vec![7, 6, 5]];

    assert_eq!(spiral(&matrix), vec![1, 2, 3, 4, 5, 6, 7, 8, 9]);
}

#[test]
fn test_spiral_empty() {
    let empty_matrix: Vec<Vec<i32>> = Vec::new();
    assert_eq!(spiral(&empty_matrix), vec![]);
}

#[test]
fn test_spiral_single() {
    assert_eq!(spiral(&[vec![1]]), vec![1]);
}

#[test]
fn test_spiral_float() {
    let matrix = vec![
        vec![1.0, 2.0, 3.0],
        vec![4.0, 5.0, 6.0],
        vec![7.0, 8.0, 9.0],
    ];

    assert_eq!(
        spiral(&matrix),
        vec![1.0, 2.0, 3.0, 6.0, 9.0, 8.0, 7.0, 4.0, 5.0]
    );
}

#[test]
fn test_spiral_mega_matrix() {
    let mega_matrix = create_matrix(1000);
    assert_eq!(spiral(&mega_matrix).len(), 1000 * 1000);
}

#[test]
fn create_matrix_fills_in_row_major_order() {
    assert_eq!(
        create_matrix(3),
        vec![vec![0, 1, 2], vec![3, 4, 5], vec![6, 7, 8]]
    );
    assert_eq!(create_matrix(1), vec![vec![0]]);
}

#[test]
fn spiral_of_single_row_and_single_column() {
    assert_eq!(spiral(&[vec![1, 2, 3]]), vec![1, 2, 3]);
    assert_eq!(spiral(&[vec![1], vec![2], vec![3]]), vec![1, 2, 3]);
    assert_eq!(spiral(&[vec![1, 2], vec![3, 4]]), vec![1, 2, 4, 3]);
}

#[test]
fn spiral_takes_width_from_first_row() {
    let no_columns: Vec<Vec<i32>> = vec![vec![], vec![]];
    assert_eq!(spiral(&no_columns), vec![]);
    assert_eq!(spiral(&[vec![1, 2], vec![3, 4, 5]]), vec![1, 2, 4, 3]);
}

#[test]
fn spiral_visits_every_cell_once() {
    let matrix = create_matrix(7);
    let mut seen = spiral(&matrix);
    assert_eq!(seen.len(), 49);
    seen.sort();
    assert_eq!(seen, (0..49).collect::<Vec<i32>>());
}
