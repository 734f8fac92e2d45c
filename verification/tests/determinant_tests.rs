use lin_alg::determinant::{Determinant, DeterNum};
use lin_alg::errors::LinAlgError;
use lin_alg::matrix::Matrix;
use lin_alg::vector::Vector;

#[test]
fn empty_determinant_is_scalar_zero() {
    let d = Determinant::from_vec(vec![]).unwrap();
    assert_eq!(d.cal(), Ok(DeterNum::Scalar(0)));
}

#[test]
fn single_entry_is_returned_unchanged() {
    let d = Determinant::from([[42]]);
    assert_eq!(d.cal(), Ok(DeterNum::Scalar(42)));
}

#[test]
fn two_by_two_uses_the_closed_form() {
    let d = Determinant::from([[1, 2], [3, 4]]);
    assert_eq!(d.cal(), Ok(DeterNum::Scalar(-2)));
    let e = Determinant::from([[7, -2], [5, 3]]);
    assert_eq!(e.cal(), Ok(DeterNum::Scalar(7 * 3 - (-2) * 5)));
}

#[test]
fn two_by_two_agrees_with_the_recursive_path() {
    // The same minors appear one level down when a 3x3 grid with a unit
    // first row is expanded, so the general path must reproduce the
    // closed form of each 2x2 minor.
    let d3 = Determinant::from([[1, 0, 0], [0, 1, 2], [0, 3, 4]]);
    assert_eq!(d3.cal(), Ok(DeterNum::Scalar(-2)));
    let d2 = Determinant::from([[1, 2], [3, 4]]);
    assert_eq!(d2.cal(), Ok(DeterNum::Scalar(-2)));
}

#[test]
fn identity_determinant_is_one_for_every_size() {
    for n in 1..6usize {
        let mut rows = Vec::new();
        for j in 0..n {
            let mut row = Vec::new();
            for i in 0..n {
                row.push(if i == j { 1 } else { 0 });
            }
            rows.push(row);
        }
        let d = Determinant::from_vec(rows).unwrap();
        assert_eq!(d.cal(), Ok(DeterNum::Scalar(1)));
    }
}

#[test]
fn identical_rows_make_the_determinant_zero() {
    let d = Determinant::from([[1, 2, 3], [4, 5, 6], [4, 5, 6]]);
    assert_eq!(d.cal(), Ok(DeterNum::Scalar(0)));
    let e = Determinant::from([[2, 9], [2, 9]]);
    assert_eq!(e.cal(), Ok(DeterNum::Scalar(0)));
    let f = Determinant::from([[4, 5, 6], [1, 2, 3], [4, 5, 6]]);
    assert_eq!(f.cal(), Ok(DeterNum::Scalar(0)));
    let g = Determinant::from([[1, 2, 3, 4], [5, 6, 7, 8], [9, 1, 2, 3], [9, 1, 2, 3]]);
    assert_eq!(g.cal(), Ok(DeterNum::Scalar(0)));
}

#[test]
fn four_by_four_expansion() {
    // Block triangular: the value is the product of the two 2x2 blocks.
    let d = Determinant::from([
        [1, 2, 0, 0],
        [3, 4, 0, 0],
        [0, 0, 5, 6],
        [0, 0, 7, 8],
    ]);
    assert_eq!(d.cal(), Ok(DeterNum::Scalar((-2) * (5 * 8 - 6 * 7))));
}

#[test]
fn non_square_grids_are_rejected() {
    assert_eq!(
        Determinant::from_vec(vec![vec![1, 2], vec![3, 4], vec![5, 6]]),
        Err(LinAlgError::NonSquareDeterminant)
    );
    assert_eq!(
        Determinant::from_vec(vec![vec![1, 2], vec![3]]),
        Err(LinAlgError::NonSquareDeterminant)
    );
}

#[test]
fn entry_arithmetic_follows_the_tag_rules() {
    let s = |x: i64| DeterNum::Scalar(x);
    let v = |xs: Vec<i64>| DeterNum::VectorValue(Vector::from_vec(xs));
    assert_eq!(s(2).add(s(3)), Ok(s(5)));
    assert_eq!(s(2).sub(s(3)), Ok(s(-1)));
    assert_eq!(s(2).mul(s(3)), Ok(s(6)));
    assert_eq!(s(7).div(s(2)), Ok(s(3)));
    assert_eq!(s(-7).div(s(2)), Ok(s(-3)));
    assert_eq!(s(7).div(s(0)), Err(LinAlgError::DivisionByZero));
    assert_eq!(
        v(vec![1, 2]).add(v(vec![10, 20])),
        Ok(v(vec![11, 22]))
    );
    assert_eq!(
        v(vec![1, 2]).sub(v(vec![10, 20])),
        Ok(v(vec![-9, -18]))
    );
    // two vectors multiply to their dot product
    assert_eq!(v(vec![1, 2]).mul(v(vec![3, 4])), Ok(s(11)));
    // a scalar next to a vector scales the vector
    assert_eq!(s(3).mul(v(vec![1, 2])), Ok(v(vec![3, 6])));
    assert_eq!(v(vec![1, 2]).mul(s(3)), Ok(v(vec![3, 6])));
    // mixed sums and any vector division are type errors
    assert_eq!(s(1).add(v(vec![1])), Err(LinAlgError::EntryTypeMismatch));
    assert_eq!(v(vec![1]).sub(s(1)), Err(LinAlgError::EntryTypeMismatch));
    assert_eq!(v(vec![1]).div(s(1)), Err(LinAlgError::EntryTypeMismatch));
    assert_eq!(
        v(vec![1]).add(v(vec![1, 2])),
        Err(LinAlgError::ShapeMismatch)
    );
}

#[test]
fn entry_overflow_is_reported() {
    let s = |x: i64| DeterNum::Scalar(x);
    assert_eq!(s(i64::MAX).add(s(1)), Err(LinAlgError::Overflow));
    assert_eq!(s(i64::MAX).mul(s(2)), Err(LinAlgError::Overflow));
    assert_eq!(s(i64::MIN).div(s(-1)), Err(LinAlgError::Overflow));
    let d = Determinant::from([[i64::MAX, 1], [1, i64::MAX]]);
    assert_eq!(d.cal(), Err(LinAlgError::Overflow));
}

#[test]
fn change_place_variants_update_the_grid() {
    let mut d = Determinant::from([[1, 2], [3, 4]]);
    d.change_place_float(0, 0, 9).unwrap();
    assert_eq!(d.cal(), Ok(DeterNum::Scalar(9 * 4 - 2 * 3)));
    d.change_place(1, 1, DeterNum::Scalar(0)).unwrap();
    assert_eq!(d.cal(), Ok(DeterNum::Scalar(-(2 * 3))));
    assert_eq!(
        d.change_place_float(2, 0, 1),
        Err(LinAlgError::IndexOutOfRange)
    );
    let mut e = Determinant::from([[1, 1], [5, 6]]);
    e.change_place_vector(0, 0, Vector::from([1, 0])).unwrap();
    e.change_place_vector(1, 0, Vector::from([0, 1])).unwrap();
    // first row basis vectors, second row scalars: a vector result
    assert_eq!(
        e.cal(),
        Ok(DeterNum::VectorValue(Vector::from([6, -5])))
    );
}

#[test]
fn matrix_determinant_checks_squareness() {
    let m = Matrix::from([[1, 2], [3, 4]]);
    assert_eq!(m.det(), Ok(-2));
    let d = m.get_determinant().unwrap();
    assert_eq!(d.cal(), Ok(DeterNum::Scalar(-2)));
    let r = Matrix::from([[1, 2, 3], [4, 5, 6]]);
    assert_eq!(r.det(), Err(LinAlgError::NonSquareMatrix));
    assert_eq!(
        r.get_determinant(),
        Err(LinAlgError::NonSquareDeterminant)
    );
}

#[test]
fn from_matrix_copies_the_grid() {
    let m = Matrix::from([[2, 0], [0, 2]]);
    let d = Determinant::from_matrix(&m).unwrap();
    assert_eq!(d.cal(), Ok(DeterNum::Scalar(4)));
}

#[test]
fn from_vec_deter_accepts_square_entry_grids() {
    let rows = vec![
        vec![DeterNum::Scalar(1), DeterNum::Scalar(2)],
        vec![DeterNum::Scalar(3), DeterNum::Scalar(4)],
    ];
    let d = Determinant::from_vec_deter(rows).unwrap();
    assert_eq!(d.cal(), Ok(DeterNum::Scalar(-2)));
    let ragged = vec![vec![DeterNum::Scalar(1)], vec![]];
    assert_eq!(
        Determinant::from_vec_deter(ragged),
        Err(LinAlgError::NonSquareDeterminant)
    );
}

#[test]
fn render_aligns_columns_to_the_widest_entry() {
    let d = Determinant::from([[1, 22], [333, 4]]);
    assert_eq!(d.render(), "|   1 22 |\n| 333  4 |");
    let e = Determinant::from_vec(vec![]).unwrap();
    assert_eq!(e.render(), "| |");
    let one = Determinant::from([[-7]]);
    assert_eq!(one.render(), "| -7 |");
}

#[test]
fn render_mixed_entries() {
    let mut d = Determinant::from([[0, 0], [10, 2]]);
    d.change_place_vector(0, 0, Vector::from([1, 0])).unwrap();
    d.change_place_vector(1, 0, Vector::from([0, 1])).unwrap();
    assert_eq!(d.render(), "| (1, 0) (0, 1) |\n|     10      2 |");
    assert_eq!(DeterNum::Scalar(-3).render(), "-3");
    assert_eq!(
        DeterNum::VectorValue(Vector::from([4, 5])).render(),
        "(4, 5)"
    );
}
