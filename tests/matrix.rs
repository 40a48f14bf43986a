use target_latency::matrix::Matrix;

#[test]
fn test_convolution() {
    let kernel = Matrix::new(3, 3, &vec![1, 0, 1, 0, 1, 0, 1, 0, 1]);
    let mut matrix = Matrix::new(
        7,
        7,
        &vec![
            0, 1, 1, 1, 0, 0, 0, 0, 0, 1, 1, 1, 0, 0, 0, 0, 0, 1, 1, 1, 0, 0, 0, 0, 1, 1, 0, 0,
            0, 0, 1, 1, 0, 0, 0, 0, 1, 1, 0, 0, 0, 0, 1, 1, 0, 0, 0, 0, 0,
        ],
    );

    let expected_output = Matrix::new(
        5,
        5,
        &vec![
            1, 4, 3, 4, 1, 1, 2, 4, 3, 3, 1, 2, 3, 4, 1, 1, 3, 3, 1, 1, 3, 3, 1, 1, 0,
        ],
    );

    matrix.convolution(&kernel);

    assert_eq!(matrix, expected_output);
}

#[test]
fn test_linear_combination() {
    let mut one_dim = Matrix::new(1, 3, &vec![1, 1, 1]);
    let weights = Matrix::new(3, 2, &vec![1, 2, 3, 4, 5, 6]);
    let bias = Matrix::new(1, 2, &vec![-1, -2]);

    let expected_output = Matrix::new(1, 2, &vec![5, 13]);

    one_dim.linear_combination(&weights, &bias);
    assert_eq!(one_dim, expected_output);
}

#[test]
fn test_transpose() {
    let mut matrix = Matrix::new(3, 2, &vec![1, 2, 3, 4, 5, 6]);
    matrix.transpose();

    let expected_output = Matrix::new(2, 3, &vec![1, 4, 2, 5, 3, 6]);
    assert_eq!(matrix, expected_output);
}

#[test]
fn flatten_keeps_entries_in_one_column() {
    let mut matrix = Matrix::new(3, 2, &vec![1, 2, 3, 4, 5, 6]);
    matrix.flatten();
    assert_eq!(matrix, Matrix::new(1, 6, &vec![1, 2, 3, 4, 5, 6]));
}

#[test]
fn one_by_one_kernel_scales() {
    let mut matrix = Matrix::new(2, 2, &vec![1, -2, 3, 4]);
    matrix.convolution(&Matrix::new(1, 1, &vec![3]));
    assert_eq!(matrix, Matrix::new(2, 2, &vec![3, -6, 9, 12]));
}

#[test]
fn full_size_kernel_gives_one_entry() {
    let mut matrix = Matrix::new(2, 2, &vec![1, 2, 3, 4]);
    matrix.convolution(&Matrix::new(2, 2, &vec![1, 10, 100, 1000]));
    assert_eq!(matrix, Matrix::new(1, 1, &vec![4321]));
}

#[test]
fn linear_combination_with_negative_weights() {
    let mut x = Matrix::new(1, 2, &vec![2, -3]);
    let weights = Matrix::new(2, 3, &vec![1, 1, -1, 2, 0, 0]);
    let bias = Matrix::new(1, 3, &vec![0, 1, 7]);
    x.linear_combination(&weights, &bias);
    assert_eq!(x, Matrix::new(1, 3, &vec![-1, -7, 7]));
}
