use lin_alg::errors::LinAlgError;
use lin_alg::func::Relu;
use lin_alg::matrix::Matrix;

#[test]
fn new_and_shape() {
    let m = Matrix::new((3, 2));
    assert_eq!(m.shape(), (3, 2));
    assert_eq!(m.get_val(), vec![vec![0, 0, 0], vec![0, 0, 0]]);
}

#[test]
fn from_rows_and_ragged_rows() {
    let m = Matrix::from([[1, 2, 3], [4, 5, 6]]);
    assert_eq!(m.shape(), (3, 2));
    assert_eq!(m.get_val(), vec![vec![1, 2, 3], vec![4, 5, 6]]);
    let n = Matrix::from_i([[1, 2], [3, 4]]);
    assert_eq!(n.get_val(), vec![vec![1, 2], vec![3, 4]]);
    let ok = Matrix::from_vec(vec![vec![1, 2], vec![3, 4]]).unwrap();
    assert_eq!(ok.shape(), (2, 2));
    assert_eq!(
        Matrix::from_vec(vec![vec![1, 2], vec![3]]),
        Err(LinAlgError::ShapeMismatch)
    );
}

#[test]
fn from_ver_vec_reads_columns() {
    let m = Matrix::from_ver_vec(vec![vec![1, 2], vec![3, 4], vec![5, 6]]).unwrap();
    assert_eq!(m.shape(), (3, 2));
    assert_eq!(m.get_val(), vec![vec![1, 3, 5], vec![2, 4, 6]]);
    let n = Matrix::from_ver_vec_i(vec![vec![1, 2], vec![3, 4]]).unwrap();
    assert_eq!(n.get_val(), vec![vec![1, 3], vec![2, 4]]);
}

#[test]
fn transpose_twice_gives_back_the_matrix() {
    let m = Matrix::from([[1, 2, 3], [4, 5, 6]]);
    let t = m.t();
    assert_eq!(t.shape(), (2, 3));
    assert_eq!(t.get_val(), vec![vec![1, 4], vec![2, 5], vec![3, 6]]);
    let back = t.t();
    assert_eq!(back.shape(), m.shape());
    assert_eq!(back.get_val(), m.get_val());
    let mut a = Matrix::from([[1, 2], [3, 4], [5, 6]]);
    a.t_assign();
    assert_eq!(a.get_val(), vec![vec![1, 3, 5], vec![2, 4, 6]]);
}

#[test]
fn transpose_involution_keeps_degenerate_shapes() {
    let m = Matrix::new((4, 0));
    let back = m.t().t();
    assert_eq!(back.shape(), (4, 0));
}

#[test]
fn elementwise_sums_and_differences() {
    let a = Matrix::from([[1, 2], [3, 4]]);
    let b = Matrix::from([[10, 20], [30, 40]]);
    assert_eq!(a.add(&b).unwrap().get_val(), vec![vec![11, 22], vec![33, 44]]);
    assert_eq!(b.sub(&a).unwrap().get_val(), vec![vec![9, 18], vec![27, 36]]);
    let c = Matrix::from([[1, 2, 3]]);
    assert_eq!(a.add(&c), Err(LinAlgError::ShapeMismatch));
    let mut d = Matrix::from([[1, 2], [3, 4]]);
    d.add_assign(&b).unwrap();
    assert_eq!(d.get_val(), vec![vec![11, 22], vec![33, 44]]);
    let mut e = Matrix::from([[10, 20], [30, 40]]);
    e.sub_assign(&a).unwrap();
    assert_eq!(e.get_val(), vec![vec![9, 18], vec![27, 36]]);
}

#[test]
fn hadamard_and_elementwise_division() {
    let a = Matrix::from([[6, -8], [9, 10]]);
    let b = Matrix::from([[3, 2], [-2, 5]]);
    assert_eq!(
        a.had_product(&b).unwrap().get_val(),
        vec![vec![18, -16], vec![-18, 50]]
    );
    assert_eq!(a.div(&b).unwrap().get_val(), vec![vec![2, -4], vec![-4, 2]]);
    let z = Matrix::from([[1, 0], [1, 1]]);
    assert_eq!(a.div(&z), Err(LinAlgError::DivisionByZero));
    let mut c = Matrix::from([[6, -8], [9, 10]]);
    c.had_product_assign(&b).unwrap();
    assert_eq!(c.get_val(), vec![vec![18, -16], vec![-18, 50]]);
    let mut d = Matrix::from([[6, -8], [9, 10]]);
    d.div_assign(&b).unwrap();
    assert_eq!(d.get_val(), vec![vec![2, -4], vec![-4, 2]]);
}

#[test]
fn matrix_product_matches_manual_dot_products() {
    let a = Matrix::from([[1, 2, 3], [4, 5, 6]]);
    let b = Matrix::from([[7, 8], [9, 10], [11, 12]]);
    let p = a.mul(&b).unwrap();
    assert_eq!(p.shape(), (2, 2));
    assert_eq!(
        p.get_val(),
        vec![
            vec![1 * 7 + 2 * 9 + 3 * 11, 1 * 8 + 2 * 10 + 3 * 12],
            vec![4 * 7 + 5 * 9 + 6 * 11, 4 * 8 + 5 * 10 + 6 * 12],
        ]
    );
    let bad = Matrix::from([[1, 2], [3, 4]]);
    assert_eq!(a.mul(&bad), Err(LinAlgError::ShapeMismatch));
    let mut c = Matrix::from([[1, 2, 3], [4, 5, 6]]);
    c.mul_assign(&b).unwrap();
    assert_eq!(c.shape(), (2, 2));
}

#[test]
fn kronecker_product_builds_blocks() {
    let a = Matrix::from([[1, 2]]);
    let b = Matrix::from([[0, 3], [4, 0]]);
    let k = a.kron_product(&b).unwrap();
    assert_eq!(k.shape(), (4, 2));
    assert_eq!(
        k.get_val(),
        vec![vec![0, 3, 0, 6], vec![4, 0, 8, 0]]
    );
    let mut c = Matrix::from([[1, 2]]);
    c.kron_product_assign(&b).unwrap();
    assert_eq!(c.shape(), (4, 2));
}

#[test]
fn strech_scales_every_entry() {
    let a = Matrix::from([[1, -2], [3, 4]]);
    assert_eq!(a.strech(3).unwrap().get_val(), vec![vec![3, -6], vec![9, 12]]);
    let mut b = Matrix::from([[1, -2], [3, 4]]);
    b.strech_assign(-1).unwrap();
    assert_eq!(b.get_val(), vec![vec![-1, 2], vec![-3, -4]]);
}

#[test]
fn sums_of_rows_and_columns() {
    let a = Matrix::from([[1, 2, 3], [4, 5, 6]]);
    let (rows, cols) = a.sum().unwrap();
    assert_eq!(rows, vec![6, 15]);
    assert_eq!(cols, vec![5, 7, 9]);
}

#[test]
fn min_max_and_empty_matrices() {
    let a = Matrix::from([[5, -3], [12, 0]]);
    assert_eq!(a.max(), Ok(12));
    assert_eq!(a.min(), Ok(-3));
    let e = Matrix::new((0, 2));
    assert_eq!(e.max(), Err(LinAlgError::EmptyVector));
    assert_eq!(e.min(), Err(LinAlgError::EmptyVector));
}

#[test]
fn get_and_change_entries() {
    let mut a = Matrix::from([[1, 2], [3, 4]]);
    assert_eq!(a.get(1, 0), Ok(2));
    assert_eq!(a.get(0, 1), Ok(3));
    assert_eq!(a.get(2, 0), Err(LinAlgError::IndexOutOfRange));
    a.change_place((0, 1), 9).unwrap();
    assert_eq!(a.get_val(), vec![vec![1, 2], vec![9, 4]]);
    a.change_row(0, [7, 8]).unwrap();
    assert_eq!(a.get_val(), vec![vec![7, 8], vec![9, 4]]);
    a.change_col(1, [5, 6]).unwrap();
    assert_eq!(a.get_val(), vec![vec![7, 5], vec![9, 6]]);
    assert_eq!(a.change_row(5, [1, 2]), Err(LinAlgError::ShapeMismatch));
}

#[test]
fn slice_takes_rows() {
    let a = Matrix::from([[1, 2], [3, 4], [5, 6]]);
    let s = a.slice(1, 3).unwrap();
    assert_eq!(s.shape(), (2, 2));
    assert_eq!(s.get_val(), vec![vec![3, 4], vec![5, 6]]);
    assert_eq!(a.slice(2, 2), Err(LinAlgError::InvalidRange));
    assert_eq!(a.slice(1, 4), Err(LinAlgError::IndexOutOfRange));
}

#[test]
fn oper_and_oper_with_combinators() {
    let a = Matrix::from([[1, -2], [3, -4]]);
    let doubled = a.oper(&|x: i64| x.wrapping_mul(2));
    assert_eq!(doubled.get_val(), vec![vec![2, -4], vec![6, -8]]);
    let b = Matrix::from([[10, 10], [10, 10]]);
    let summed = a.oper_with(&b, &|x: i64, y: i64| x.wrapping_add(y)).unwrap();
    assert_eq!(summed.get_val(), vec![vec![11, 8], vec![13, 6]]);
    let mut c = Matrix::from([[1, -2], [3, -4]]);
    c.oper_assign(&|x: i64| x.wrapping_mul(2));
    assert_eq!(c.get_val(), vec![vec![2, -4], vec![6, -8]]);
    let mut d = Matrix::from([[1, -2], [3, -4]]);
    d.oper_with_assign(&b, &|x: i64, y: i64| x.wrapping_add(y)).unwrap();
    assert_eq!(d.get_val(), vec![vec![11, 8], vec![13, 6]]);
}

#[test]
fn restrict_rescales_onto_the_interval() {
    let mut a = Matrix::from([[0, 5], [10, 5]]);
    a.restrict(0, 100).unwrap();
    // every entry x maps to 0 + (x - 0) * 100 / 10
    assert_eq!(a.get_val(), vec![vec![0, 50], vec![100, 50]]);
}

#[test]
fn restrict_is_endpoint_exact_even_with_rounding() {
    // spread 3 does not divide width 10, yet the extremes land exactly
    // on the interval ends
    let mut a = Matrix::from([[0, 1], [2, 3]]);
    a.restrict(0, 10).unwrap();
    assert_eq!(a.get_val(), vec![vec![0, 3], vec![6, 10]]);
    let mut b = Matrix::from([[-3, 9]]);
    b.restrict(-5, 5).unwrap();
    assert_eq!(b.get_val(), vec![vec![-5, 5]]);
}

#[test]
fn restrict_rejects_bad_ranges() {
    let mut a = Matrix::from([[1, 2], [3, 4]]);
    assert_eq!(a.restrict(5, 5), Err(LinAlgError::InvalidRange));
    let mut b = Matrix::from([[7, 7], [7, 7]]);
    assert_eq!(b.restrict(0, 10), Err(LinAlgError::DegenerateRange));
    let mut e = Matrix::new((0, 0));
    assert_eq!(e.restrict(0, 10), Err(LinAlgError::EmptyVector));
}

#[test]
fn overflow_in_matrix_arithmetic() {
    let a = Matrix::from([[i64::MAX]]);
    let b = Matrix::from([[1]]);
    assert_eq!(a.add(&b), Err(LinAlgError::Overflow));
    assert_eq!(a.strech(2), Err(LinAlgError::Overflow));
    assert_eq!(a.had_product(&a), Err(LinAlgError::Overflow));
    assert_eq!(a.mul(&a), Err(LinAlgError::Overflow));
}

#[test]
fn relu_on_matrices() {
    let a = Matrix::from([[3, -4], [0, 9]]);
    assert_eq!(a.relu_for().get_val(), vec![vec![3, 0], vec![0, 9]]);
    assert_eq!(a.relu_back().get_val(), vec![vec![1, 0], vec![0, 1]]);
}

#[test]
fn render_matrix_text() {
    let a = Matrix::from([[1, 2], [3, 4]]);
    assert_eq!(a.render(), "Matrix[\n    (1, 2)\n    (3, 4)\n]");
}
