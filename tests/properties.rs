use linalg::matrix::Matrix;
use linalg::vector::VectorN;

fn times(x: f64, y: f64) -> f64 {
    x * y
}

fn plus(x: f64, y: f64) -> f64 {
    x + y
}

fn minus(x: f64, y: f64) -> f64 {
    x - y
}

#[test]
fn vector_construction_keeps_every_entry() {
    let v: VectorN<f64, 5> = VectorN::new([0.5, 1.5, 2.5, 3.5, 4.5]);
    for i in 0..5 {
        assert_eq!(v.get(i), Some(0.5 + i as f64));
    }
    assert_eq!(v.get(5), None);
}

#[test]
fn dotproduct_is_commutative() {
    let a: VectorN<f64, 3> = VectorN::new([0.1, -2.5, 7.25]);
    let b: VectorN<f64, 3> = VectorN::new([3.3, 0.7, -1.125]);
    assert_eq!(
        a.dotproduct(&b, 0.0, times, plus).unwrap(),
        b.dotproduct(&a, 0.0, times, plus).unwrap()
    );
}

#[test]
fn scaling_by_one_and_zero() {
    let v: VectorN<f64, 3> = VectorN::new([1.25, -3.0, 8.5]);
    assert_eq!(v.mul_cpy(1.0, times), v);
    assert_eq!(v.mul_cpy(0.0, times).data(), [0.0, 0.0, 0.0]);
    let mut m: Matrix<f64, 1, 2> = Matrix::new(vec![2.0, -4.0]).unwrap();
    m.scalar_multiply(1.0, times);
    assert_eq!(m.data(), &[2.0, -4.0]);
    m.scalar_multiply(0.0, times);
    assert_eq!(m.data(), &[0.0, 0.0]);
}

#[test]
fn vector_addition_commutes_and_associates() {
    let a: VectorN<f64, 2> = VectorN::new([1.0, 2.0]);
    let b: VectorN<f64, 2> = VectorN::new([3.0, -4.0]);
    let c: VectorN<f64, 2> = VectorN::new([0.5, 8.0]);
    assert_eq!(a.add_with(&b, plus), b.add_with(&a, plus));
    assert_eq!(
        a.add_with(&b, plus).add_with(&c, plus),
        a.add_with(&b.add_with(&c, plus), plus)
    );
}

#[test]
fn matrix_construction_succeeds_exactly_on_matching_length() {
    for len in 0..10 {
        let m: Result<Matrix<f64, 2, 3>, _> = Matrix::new(vec![1.0; len]);
        assert_eq!(m.is_ok(), len == 6);
    }
}

#[test]
fn identity_times_matrix_is_matrix() {
    let id: Matrix<f64, 2, 2> = Matrix::new_identity_matrix(2, 1.0, 0.0);
    let m: Matrix<f64, 2, 3> = Matrix::new(vec![1.0, -2.0, 3.5, 4.0, 0.25, -6.0]).unwrap();
    assert_eq!(id.multiply(&m, 0.0, times, plus), m);
}

#[test]
fn multiplication_associates() {
    let a: Matrix<f64, 2, 3> = Matrix::new(vec![1.0, 2.0, 3.0, 4.0, 5.0, 6.0]).unwrap();
    let b: Matrix<f64, 3, 2> = Matrix::new(vec![7.0, 8.0, 9.0, 10.0, 11.0, 12.0]).unwrap();
    let c: Matrix<f64, 2, 2> = Matrix::new(vec![1.0, -1.0, 2.0, 0.5]).unwrap();
    let left = a.multiply(&b, 0.0, times, plus).multiply(&c, 0.0, times, plus);
    let right = a.multiply(&b.multiply(&c, 0.0, times, plus), 0.0, times, plus);
    for (x, y) in left.data().iter().zip(right.data().iter()) {
        assert!((x - y).abs() < 1e-9);
    }
}

#[test]
fn matrix_times_inverse_is_identity() {
    let m: Matrix<f64, 2, 2> = Matrix::new(vec![4.0, 7.0, 2.0, 6.0]).unwrap();
    let inv = m.inv(|x: f64| -x, times, minus, |d: f64| 1.0 / d);
    let p = m.multiply(&inv, 0.0, times, plus);
    let expected = [1.0, 0.0, 0.0, 1.0];
    for (x, y) in p.data().iter().zip(expected.iter()) {
        assert!((x - y).abs() < 1e-9);
    }
}

#[test]
fn identity_transform_keeps_vector() {
    let id: Matrix<f64, 3, 3> = Matrix::new_identity_matrix(3, 1.0, 0.0);
    let v: VectorN<f64, 3> = VectorN::new([2.5, -1.0, 9.0]);
    assert_eq!(id.transform(&v, 0.0, times, plus), v);
}

#[test]
fn determinant_of_one_to_four() {
    let m: Matrix<f64, 2, 2> = Matrix::new(vec![1.0, 2.0, 3.0, 4.0]).unwrap();
    assert_eq!(m.det(times, minus), -2.0);
}

#[test]
fn inverse_of_one_to_four() {
    let m: Matrix<f64, 2, 2> = Matrix::new(vec![1.0, 2.0, 3.0, 4.0]).unwrap();
    let inv = m.inv(|x: f64| -x, times, minus, |d: f64| 1.0 / d);
    assert_eq!(inv.data(), &[-2.0, 1.0, 1.5, -0.5]);
}

#[test]
fn singular_inverse_is_not_finite() {
    let m: Matrix<f64, 2, 2> = Matrix::new(vec![1.0, 2.0, 2.0, 4.0]).unwrap();
    let inv = m.inv(|x: f64| -x, times, minus, |d: f64| 1.0 / d);
    assert!(inv.data().iter().all(|x| !x.is_finite()));
}

#[test]
fn product_of_two_by_two_scenario() {
    let a: Matrix<f64, 2, 2> = Matrix::new(vec![1.0, 2.0, 3.0, 4.0]).unwrap();
    let b: Matrix<f64, 2, 2> = Matrix::new(vec![5.0, 2.0, 3.0, 4.0]).unwrap();
    assert_eq!(a.multiply(&b, 0.0, times, plus).data(), &[11.0, 10.0, 27.0, 22.0]);
}

#[test]
fn product_with_distinct_inner_and_outer_sizes() {
    let a: Matrix<f64, 2, 3> = Matrix::new(vec![1.0, 2.0, 3.0, 4.0, 5.0, 6.0]).unwrap();
    let b: Matrix<f64, 3, 4> = Matrix::new(vec![
        1.0, 0.0, 0.0, 2.0, 0.0, 1.0, 0.0, 3.0, 0.0, 0.0, 1.0, 4.0,
    ])
    .unwrap();
    let c: Matrix<f64, 2, 4> = a.multiply(&b, 0.0, times, plus);
    assert_eq!(c.data(), &[1.0, 2.0, 3.0, 20.0, 4.0, 5.0, 6.0, 47.0]);
}

#[test]
fn dotproduct_scenario() {
    let a: VectorN<f64, 4> = VectorN::new([1.0, 2.0, 3.0, 4.0]);
    let b: VectorN<f64, 4> = VectorN::new([6.9, 4.2, 3.5, 6.7]);
    assert_eq!(a.dotproduct(&b, 0.0, times, plus), Ok(52.6));
}

#[test]
fn transform_scenario() {
    let m: Matrix<f64, 3, 3> =
        Matrix::new(vec![3.0, 2.0, 5.0, 4.0, 7.0, 2.0, 8.0, 2.0, 1.0]).unwrap();
    let v: VectorN<f64, 3> = VectorN::new([3.0, -7.0, 8.0]);
    assert_eq!(m.transform(&v, 0.0, times, plus).data(), [35.0, -21.0, 18.0]);
}

#[test]
fn subtraction_by_entrywise() {
    let a: Matrix<i64, 1, 3> = Matrix::new(vec![5, 5, 5]).unwrap();
    let b: Matrix<i64, 1, 3> = Matrix::new(vec![1, 2, 3]).unwrap();
    let d = a.entrywise(&b, |x: i64, y: i64| x - y).unwrap();
    assert_eq!(d.data(), &[4, 3, 2]);
}
