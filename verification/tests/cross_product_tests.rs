use lin_alg::errors::LinAlgError;
use lin_alg::vector::Vector;

#[test]
fn cross_product_of_the_first_two_basis_vectors() {
    let e1 = Vector::from([1, 0, 0]);
    let e2 = Vector::from([0, 1, 0]);
    let e3 = e1.cross_product(&e2).unwrap();
    assert_eq!(e3.get_val(), &vec![0, 0, 1]);
}

#[test]
fn cross_product_concrete_scenario() {
    let u = Vector::from([1, 2, 3]);
    let v = Vector::from([4, 5, 6]);
    let w = u.cross_product(&v).unwrap();
    assert_eq!(w.get_val(), &vec![-3, 6, -3]);
}

#[test]
fn cross_product_is_antisymmetric() {
    let u = Vector::from([2, -7, 5]);
    let v = Vector::from([3, 1, -4]);
    let uv = u.cross_product(&v).unwrap();
    let vu = v.cross_product(&u).unwrap();
    let negated = vu.neg().unwrap();
    assert_eq!(uv.get_val(), negated.get_val());
}

#[test]
fn cross_product_of_parallel_vectors_is_zero() {
    let u = Vector::from([2, 4, 6]);
    let v = Vector::from([1, 2, 3]);
    let w = u.cross_product(&v).unwrap();
    assert_eq!(w.get_val(), &vec![0, 0, 0]);
}

#[test]
fn cross_product_demands_length_three() {
    let u = Vector::from([1, 2]);
    let v = Vector::from([3, 4]);
    assert_eq!(u.cross_product(&v), Err(LinAlgError::ShapeMismatch));
    let a = Vector::from([1, 2, 3, 4]);
    let b = Vector::from([5, 6, 7, 8]);
    assert_eq!(a.cross_product(&b), Err(LinAlgError::ShapeMismatch));
    let three = Vector::from([1, 2, 3]);
    let two = Vector::from([1, 2]);
    assert_eq!(three.cross_product(&two), Err(LinAlgError::ShapeMismatch));
}

#[test]
fn cross_product_overflow_is_reported() {
    let u = Vector::from([i64::MAX, 0, 0]);
    let v = Vector::from([0, 0, i64::MAX]);
    assert_eq!(u.cross_product(&v), Err(LinAlgError::Overflow));
}
