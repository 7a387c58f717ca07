use linalg::error::MatrixError;
use linalg::matrix::{Direction, Matrix};
use linalg::vector::VectorN;

fn times(x: f64, y: f64) -> f64 {
    x * y
}

fn plus(x: f64, y: f64) -> f64 {
    x + y
}

fn minus(x: f64, y: f64) -> f64 {
    x - y
}

#[test]
fn successful_2x2matrix_init() {
    let data = vec![0.0, 1.0, 2.0, 3.0];
    let matrix: Result<Matrix<f64, 2, 2>, _> = Matrix::new(data);
    assert!(matrix.is_ok());
    let matrix = matrix.unwrap();
    assert_eq!(matrix.dimensions(), (2, 2));
}

#[test]
fn unsuccessful_2x2matrix_init() {
    let data = vec![0.0, 1.0, 2.0, 3.0];
    let matrix: Result<Matrix<f64, 2, 3>, _> = Matrix::new(data);
    assert!(matrix.is_err());
}

#[test]
fn test_identity_matrices() {
    let identity2x2: Matrix<f64, 2, 2> = Matrix::new_identity_matrix(2, 1.0, 0.0);
    assert_eq!(identity2x2.data(), &[1.0, 0.0, 0.0, 1.0]);

    let identity3x3: Matrix<f64, 3, 3> = Matrix::new_identity_matrix(3, 1.0, 0.0);
    assert_eq!(
        identity3x3.data(),
        &[1.0, 0.0, 0.0, 0.0, 1.0, 0.0, 0.0, 0.0, 1.0]
    );

    let identity4x4: Matrix<f64, 4, 4> = Matrix::new_identity_matrix(4, 1.0, 0.0);
    assert_eq!(
        identity4x4.data(),
        &[1.0, 0.0, 0.0, 0.0, 0.0, 1.0, 0.0, 0.0, 0.0, 0.0, 1.0, 0.0, 0.0, 0.0, 0.0, 1.0]
    )
}

#[test]
fn test_dimensions() {
    let data = vec![1.0, 2.0, 3.0, 4.0];
    let matrix: Matrix<f64, 2, 2> = Matrix::new(data).unwrap();
    assert_eq!(matrix.dimensions(), (2, 2));
}

#[test]
fn test_get_data() {
    let data = vec![1.0, 2.0, 3.0, 4.0];
    let matrix: Matrix<f64, 2, 2> = Matrix::new(data).unwrap();
    assert_eq!(matrix.data(), &vec![1.0, 2.0, 3.0, 4.0])
}

#[test]
fn get_tuple_row() {
    let data = vec![0.0, 1.0, 2.0, 3.0, 4.0, 5.0, 6.0, 7.0, 8.0, 9.0, 10.0, 11.0];
    let matrix: Matrix<f64, 4, 3> = Matrix::new(data).unwrap();

    let first_row = matrix.get_tuple(0, Direction::Row).unwrap();
    let second_row = matrix.get_tuple(1, Direction::Row).unwrap();
    let third_row = matrix.get_tuple(2, Direction::Row).unwrap();
    let fourth_row = matrix.get_tuple(3, Direction::Row).unwrap();

    assert_eq!(first_row, [0.0, 1.0, 2.0]);
    assert_eq!(second_row, [3.0, 4.0, 5.0]);
    assert_eq!(third_row, [6.0, 7.0, 8.0]);
    assert_eq!(fourth_row, [9.0, 10.0, 11.0]);
}

#[test]
fn get_tuple_column() {
    let data = vec![0.0, 1.0, 2.0, 3.0, 4.0, 5.0, 6.0, 7.0, 8.0, 9.0, 10.0, 11.0];
    let matrix: Matrix<f64, 4, 3> = Matrix::new(data).unwrap();

    let first_column = matrix.get_tuple(0, Direction::Column).unwrap();
    let second_column = matrix.get_tuple(1, Direction::Column).unwrap();
    let third_column = matrix.get_tuple(2, Direction::Column).unwrap();

    assert_eq!(first_column, [0.0, 3.0, 6.0, 9.0]);
    assert_eq!(second_column, [1.0, 4.0, 7.0, 10.0]);
    assert_eq!(third_column, [2.0, 5.0, 8.0, 11.0]);
}

#[test]
fn get_2x2matrix_row() {
    let data = vec![1.0, 2.0, 3.0, 4.0];
    let matrix: Matrix<f64, 2, 2> = Matrix::new(data).unwrap();
    assert_eq!(matrix.get_tuple(1, Direction::Row).unwrap(), [3.0, 4.0]);
}

#[test]
fn get_2x2matrix_column() {
    let data = vec![1.0, 2.0, 3.0, 4.0];
    let matrix: Matrix<f64, 2, 2> = Matrix::new(data).unwrap();
    assert_eq!(matrix.get_tuple(1, Direction::Column).unwrap(), [2.0, 4.0]);
}

#[test]
fn test_scalar_multiply() {
    let data = vec![1.0, 2.0, 3.0, 4.0];
    let mut matrix: Matrix<f64, 2, 2> = Matrix::new(data).unwrap();

    matrix.scalar_multiply(3.0, times);
    assert_eq!(matrix.data(), &[3.0, 6.0, 9.0, 12.0]);

    matrix.scalar_multiply(std::f64::consts::PI, times);
    assert_eq!(
        matrix.data(),
        &[
            3.0 * std::f64::consts::PI,
            6.0 * std::f64::consts::PI,
            9.0 * std::f64::consts::PI,
            12.0 * std::f64::consts::PI
        ]
    );
}

#[test]
fn test_matrix_addition() {
    let a: Matrix<f64, 2, 2> = Matrix::new(vec![0.0, 1.0, 2.0, 3.0]).unwrap();
    let b: Matrix<f64, 2, 2> = Matrix::new(vec![6.9, 4.2, 2.3, 5.7]).unwrap();
    let c = a.entrywise(&b, plus).unwrap();
    assert_eq!(c.data(), &[6.9, 5.2, 4.3, 8.7]);
}

#[test]
fn test_matrix_subtraction() {
    let a: Matrix<f64, 2, 2> = Matrix::new(vec![0.0, 1.0, 2.0, 3.0]).unwrap();
    let b: Matrix<f64, 2, 2> = Matrix::new(vec![6.9, 4.2, 2.3, 5.7]).unwrap();
    let c = a.entrywise(&b, minus).unwrap();
    assert_eq!(c.data(), &[-6.9, -3.2, -0.2999999999999998, -2.7]);
}

#[test]
fn test_matrix_multiplication_2x2() {
    let a: Matrix<f64, 2, 2> = Matrix::new(vec![1.0, 2.0, 3.0, 4.0]).unwrap();
    let b: Matrix<f64, 2, 2> = Matrix::new(vec![5.0, 2.0, 3.0, 4.0]).unwrap();
    let c = a.multiply(&b, 0.0, times, plus);
    assert_eq!(c.data(), &[11.0, 10.0, 27.0, 22.0]);
}

#[test]
fn test_matrix_multiplication_mxn() {
    let a: Matrix<f64, 3, 2> = Matrix::new(vec![1.0, 2.0, 3.0, 4.0, 7.0, 9.0]).unwrap();
    let b: Matrix<f64, 2, 2> = Matrix::new(vec![5.0, 2.0, 6.0, 5.0]).unwrap();
    let c: Matrix<f64, 3, 2> = a.multiply(&b, 0.0, times, plus);
    assert_eq!(c.data(), &[17.0, 12.0, 39.0, 26.0, 89.0, 59.0]);
}

#[test]
fn test_true_matrix_equivalence() {
    let a: Matrix<f64, 2, 2> = Matrix::new(vec![1.0, 2.0, 3.0, 4.0]).unwrap();
    let b: Matrix<f64, 2, 2> = Matrix::new(vec![1.0, 2.0, 3.0, 4.0]).unwrap();
    assert_eq!(a, b);
}

#[test]
fn test_false_matrix_equivalence() {
    let a: Matrix<f64, 2, 2> = Matrix::new(vec![1.0, 2.0, 3.0, 4.0]).unwrap();
    let b: Matrix<f64, 2, 2> = Matrix::new(vec![5.0, 6.0, 7.0, 8.0]).unwrap();
    assert_ne!(a, b);
}

#[test]
fn test_determinant() {
    let matrix: Matrix<f64, 2, 2> = Matrix::new(vec![1.0, 2.0, 3.0, 4.0]).unwrap();
    assert_eq!(matrix.det(times, minus), -2.0)
}

#[test]
fn test_inverse() {
    let matrix: Matrix<f64, 2, 2> = Matrix::new(vec![1.0, 2.0, 3.0, 4.0]).unwrap();
    let inverse = matrix.inv(|x: f64| -x, times, minus, |d: f64| 1.0 / d);
    assert_eq!(matrix.multiply(&inverse, 0.0, times, plus).data(), &[1.0, 0.0, 0.0, 1.0]);
}

#[test]
fn test_successful_get() {
    let data = vec![3.14, 2.18, 6.28, 0.0];
    let matrix: Matrix<f64, 2, 2> = Matrix::new(data).unwrap();

    let result = matrix.get(0, 0);
    assert!(result.is_some());
    let result = result.unwrap();
    assert_eq!(result, 3.14);

    // row-major: row 1, column 0 is the third stored entry
    let other_result = matrix.get(1, 0);
    assert!(other_result.is_some());
    let other_result = other_result.unwrap();
    assert_eq!(other_result, 6.28);
}

#[test]
fn test_unsuccessful_get() {
    let data = vec![3.14, 2.18, 6.28, 0.0];
    let matrix: Matrix<f64, 2, 2> = Matrix::new(data).unwrap();
    let result = matrix.get(5, 20);
    assert!(result.is_none());
}

#[test]
fn test_successful_set() {
    let data = vec![3.14, 2.18, 6.28, 0.0];
    let mut matrix: Matrix<f64, 2, 2> = Matrix::new(data).unwrap();
    assert!(matrix.set(6.9, 0, 1).is_ok());
    assert_eq!(matrix.get(0, 1).unwrap(), 6.9);
}

#[test]
fn test_unsuccessful_set() {
    let data = vec![3.14, 2.18, 6.28, 0.0];
    let mut matrix: Matrix<f64, 2, 2> = Matrix::new(data).unwrap();
    assert!(matrix.set(6.9, 500, 600).is_err());
}

#[test]
fn test_fill() {
    let mut matrix: Matrix<f64, 2, 2> = Matrix::new(vec![1.0, 2.0, 3.0, 4.0]).unwrap();
    assert_eq!(matrix.data(), &[1.0, 2.0, 3.0, 4.0]);
    matrix.fill(0.0);
    assert_eq!(matrix.data(), &[0.0, 0.0, 0.0, 0.0])
}

#[test]
fn test_2dim_identity_transformation() {
    let matrix: Matrix<f64, 2, 2> = Matrix::new(vec![1.0, 0.0, 0.0, 1.0]).unwrap();
    let vec: VectorN<f64, 2> = VectorN::new([3.0, 5.0]);
    let transformed_vec = matrix.transform(&vec, 0.0, times, plus);
    assert_eq!(transformed_vec, vec);
}

#[test]
fn test_3dim_arbitrary_transformation() {
    let data = vec![3.0, 2.0, 5.0, 4.0, 7.0, 2.0, 8.0, 2.0, 1.0];
    let matrix: Matrix<f64, 3, 3> = Matrix::new(data).unwrap();
    let vec: VectorN<f64, 3> = VectorN::new([3.0, -7.0, 8.0]);
    let transformed_vec = matrix.transform(&vec, 0.0, times, plus);
    assert_eq!(transformed_vec.data(), &[35.0, -21.0, 18.0]);
}

#[test]
fn construction_error_is_invalid_dimensions() {
    let too_long: Result<Matrix<f64, 2, 2>, _> = Matrix::new(vec![1.0; 5]);
    assert_eq!(too_long.unwrap_err(), MatrixError::InvalidDimensions);
    let empty: Result<Matrix<f64, 1, 1>, _> = Matrix::new(vec![]);
    assert_eq!(empty.unwrap_err(), MatrixError::InvalidDimensions);
    let huge: Result<Matrix<f64, 4611686018427387904, 8>, _> = Matrix::new(vec![0.0; 2]);
    assert_eq!(huge.unwrap_err(), MatrixError::InvalidDimensions);
}

#[test]
fn set_out_of_range_is_undefined_index_and_keeps_entries() {
    let mut matrix: Matrix<f64, 2, 2> = Matrix::new(vec![1.0, 2.0, 3.0, 4.0]).unwrap();
    // (0, 2) would map to flat position 2, inside the storage, yet column 2 does not exist
    assert_eq!(matrix.set(9.0, 0, 2), Err(MatrixError::UndefinedIndex));
    assert_eq!(matrix.set(9.0, 2, 0), Err(MatrixError::UndefinedIndex));
    assert_eq!(matrix.data(), &[1.0, 2.0, 3.0, 4.0]);
}

#[test]
fn get_rejects_one_past_each_bound() {
    let matrix: Matrix<f64, 2, 3> = Matrix::new(vec![1.0, 2.0, 3.0, 4.0, 5.0, 6.0]).unwrap();
    assert_eq!(matrix.get(1, 2), Some(6.0));
    assert_eq!(matrix.get(0, 3), None);
    assert_eq!(matrix.get(2, 0), None);
}

#[test]
fn set_writes_row_major_position() {
    let mut matrix: Matrix<f64, 2, 3> = Matrix::new(vec![0.0; 6]).unwrap();
    assert_eq!(matrix.set(7.0, 1, 0), Ok(()));
    assert_eq!(matrix.data(), &[0.0, 0.0, 0.0, 7.0, 0.0, 0.0]);
}

#[test]
fn get_tuple_out_of_range_is_none() {
    let matrix: Matrix<f64, 2, 3> = Matrix::new(vec![1.0, 2.0, 3.0, 4.0, 5.0, 6.0]).unwrap();
    assert!(matrix.get_tuple(2, Direction::Row).is_none());
    assert!(matrix.get_tuple(3, Direction::Column).is_none());
    assert_eq!(matrix.get_tuple(2, Direction::Column).unwrap(), [3.0, 6.0]);
}

#[test]
fn identity_over_integers() {
    let id: Matrix<i64, 3, 3> = Matrix::new_identity_matrix(3, 1, 0);
    assert_eq!(id.data(), &[1, 0, 0, 0, 1, 0, 0, 0, 1]);
    assert_eq!(id.get(2, 2), Some(1));
    assert_eq!(id.get(2, 1), Some(0));
}
