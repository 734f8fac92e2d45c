use lin_alg::errors::LinAlgError;
use lin_alg::func::Relu;
use lin_alg::vector::Vector;

#[test]
fn new_is_zero_filled() {
    let v = Vector::new(4);
    assert_eq!(v.len(), 4);
    assert_eq!(v.get_val(), &vec![0, 0, 0, 0]);
}

#[test]
fn from_keeps_values_in_order() {
    let v = Vector::from([7, -3, 12]);
    assert_eq!(v.get_val(), &vec![7, -3, 12]);
    let w = Vector::from_i([7, -3, 12]);
    assert_eq!(w.get_val(), &vec![7, -3, 12]);
    let u = Vector::from_vec(vec![1, 2]);
    assert_eq!(u.shape(), 2);
}

#[test]
fn combine_with_addition_is_elementwise() {
    let u = Vector::from([1, 2, 3]);
    let v = Vector::from([10, 20, 30]);
    let w = u.oper_with(&v, &|a: i64, b: i64| a + b).unwrap();
    assert_eq!(w.get_val(), &vec![11, 22, 33]);
    let s = u.add(&v).unwrap();
    assert_eq!(s.get_val(), &vec![11, 22, 33]);
}

#[test]
fn combine_shape_mismatch_is_reported() {
    let u = Vector::from([1, 2, 3]);
    let v = Vector::from([1, 2]);
    assert_eq!(
        u.oper_with(&v, &|a: i64, b: i64| a + b),
        Err(LinAlgError::ShapeMismatch)
    );
    assert_eq!(u.add(&v), Err(LinAlgError::ShapeMismatch));
    assert_eq!(u.sub(&v), Err(LinAlgError::ShapeMismatch));
    assert_eq!(u.dot(&v), Err(LinAlgError::ShapeMismatch));
}

#[test]
fn map_applies_per_element() {
    let u = Vector::from([1, -2, 3]);
    let w = u.oper(&|a: i64| a.wrapping_mul(2));
    assert_eq!(w.get_val(), &vec![2, -4, 6]);
    let mut m = Vector::from([1, -2, 3]);
    m.oper_assign(&|a: i64| a.wrapping_mul(2));
    assert_eq!(m.get_val(), &vec![2, -4, 6]);
}

#[test]
fn sub_neg_and_strech() {
    let u = Vector::from([5, 7]);
    let v = Vector::from([1, 2]);
    assert_eq!(u.sub(&v).unwrap().get_val(), &vec![4, 5]);
    assert_eq!(u.neg().unwrap().get_val(), &vec![-5, -7]);
    assert_eq!(u.strech(3).unwrap().get_val(), &vec![15, 21]);
    let mut w = Vector::from([5, 7]);
    w.strech_assign(-1).unwrap();
    assert_eq!(w.get_val(), &vec![-5, -7]);
}

#[test]
fn dot_and_sum_are_exact() {
    let u = Vector::from([1, 2, 3]);
    let v = Vector::from([4, 5, 6]);
    assert_eq!(u.dot(&v), Ok(32));
    assert_eq!(u.sum(), Ok(6));
    assert_eq!(Vector::new(0).sum(), Ok(0));
}

#[test]
fn had_product_and_div_are_elementwise() {
    let u = Vector::from([6, -8, 9]);
    let v = Vector::from([3, 2, -2]);
    assert_eq!(u.had_product(&v).unwrap().get_val(), &vec![18, -16, -18]);
    assert_eq!(u.div(&v).unwrap().get_val(), &vec![2, -4, -4]);
}

#[test]
fn division_by_zero_is_reported() {
    let u = Vector::from([6, 8]);
    let v = Vector::from([3, 0]);
    assert_eq!(u.div(&v), Err(LinAlgError::DivisionByZero));
}

#[test]
fn min_max_report_empty_vector() {
    let u = Vector::from([3, -1, 7, 0]);
    assert_eq!(u.max(), Ok(7));
    assert_eq!(u.min(), Ok(-1));
    let e = Vector::new(0);
    assert_eq!(e.max(), Err(LinAlgError::EmptyVector));
    assert_eq!(e.min(), Err(LinAlgError::EmptyVector));
}

#[test]
fn slice_takes_a_prefix() {
    let u = Vector::from([1, 2, 3, 4]);
    assert_eq!(u.slice(2).unwrap().get_val(), &vec![1, 2]);
    assert_eq!(u.slice(0).unwrap().len(), 0);
    assert_eq!(u.slice(5), Err(LinAlgError::IndexOutOfRange));
}

#[test]
fn element_access_and_update() {
    let mut u = Vector::from([1, 2, 3]);
    assert_eq!(u.get_at(1), Ok(2));
    assert_eq!(u.get_at(3), Err(LinAlgError::IndexOutOfRange));
    u.change_place(1, 9).unwrap();
    assert_eq!(u.get_val(), &vec![1, 9, 3]);
    assert_eq!(u.change_place(7, 0), Err(LinAlgError::IndexOutOfRange));
}

#[test]
fn overflow_is_reported_not_wrapped() {
    let u = Vector::from([i64::MAX]);
    let v = Vector::from([1]);
    assert_eq!(u.add(&v), Err(LinAlgError::Overflow));
    assert_eq!(u.strech(2), Err(LinAlgError::Overflow));
    let m = Vector::from([i64::MIN]);
    assert_eq!(m.neg(), Err(LinAlgError::Overflow));
    let big = Vector::from([i64::MAX, i64::MAX]);
    let ones = Vector::from([1, 1]);
    assert_eq!(big.dot(&ones), Err(LinAlgError::Overflow));
    assert_eq!(big.sum(), Err(LinAlgError::Overflow));
    let dm = Vector::from([i64::MIN]);
    let dneg = Vector::from([-1]);
    assert_eq!(dm.div(&dneg), Err(LinAlgError::Overflow));
}

#[test]
fn out_product_builds_the_rectangle() {
    let u = Vector::from([1, 2, 3]);
    let v = Vector::from([4, 5]);
    let m = u.out_product(&v).unwrap();
    assert_eq!(m.shape(), (2, 3));
    assert_eq!(m.get_val(), vec![vec![4, 5], vec![8, 10], vec![12, 15]]);
}

#[test]
fn relu_on_scalars_and_vectors() {
    assert_eq!(5i64.relu_for(), 5);
    assert_eq!((-5i64).relu_for(), 0);
    assert_eq!(5i64.relu_back(), 1);
    assert_eq!((-5i64).relu_back(), 0);
    let u = Vector::from([3, -4, 0, 9]);
    assert_eq!(u.relu_for().get_val(), &vec![3, 0, 0, 9]);
    assert_eq!(u.relu_back().get_val(), &vec![1, 0, 0, 1]);
}

#[test]
fn render_vector_text() {
    let u = Vector::from([1, -2, 3]);
    assert_eq!(u.render(), "(1, -2, 3)");
    let e = Vector::new(0);
    assert_eq!(e.render(), "()");
    let one = Vector::from([-10]);
    assert_eq!(one.render(), "(-10)");
}
