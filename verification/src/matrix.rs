//! Rectangular matrices of exact integers: elementwise operations, the
//! matrix, Hadamard and Kronecker products, transposition, reductions,
//! and affine range restriction.

use vstd::prelude::*;

use crate::determinant::{
    all_scalar, eval_grid, is_square, lemma_det_identity, lemma_equal_last_rows,
    lemma_scalar_eval, lemma_scalar_grid_identity, scalar_grid, Determinant, DeterNum, SpecNum,
};
use crate::errors::LinAlgError;
use crate::func::{relu64, relu64_back, Relu};
use crate::vector::{fits, dot_chk, dot_int, sum_chk, sum_int, Vector};

verus! {

/// The transpose of a row-major grid with `c` columns: the element in
/// column `x` of row `y` moves to column `y` of row `x`.
pub open spec fn transpose_of(g: Seq<Seq<i64>>, c: int) -> Seq<Seq<i64>> {
    Seq::new(c as nat, |i: int| Seq::new(g.len(), |j: int| g[j][i]))
}

/// Transposing twice gives back the original grid, shape included: the
/// second transpose of a rectangular grid with `c` columns equals the
/// grid itself.
pub proof fn lemma_transpose_involution(g: Seq<Seq<i64>>, c: int)
    requires
        c >= 0,
        forall|j: int| 0 <= j < g.len() ==> (#[trigger] g[j]).len() == c,
    ensures
        transpose_of(transpose_of(g, c), g.len() as int) == g,
{
    let t1 = transpose_of(g, c);
    let t2 = transpose_of(t1, g.len() as int);
    assert forall|j: int| 0 <= j < g.len() implies t2[j] == g[j] by {
        assert forall|i: int| 0 <= i < c implies t2[j][i] == g[j][i] by {
            assert(t2[j][i] == t1[i][j]);
        }
        assert(t2[j] =~= g[j]);
    }
    assert(t2 =~= g);
}

/// The determinant of an identity matrix of any positive size evaluates,
/// without failure, to one; together with `det`'s contract this pins the
/// call's result on such a matrix to exactly `Ok(1)`.
pub proof fn lemma_det_identity_matrix(m: Matrix)
    requires
        m.wf(),
        m.spec_shape().0 == m.spec_shape().1,
        m@.len() >= 1,
        forall|j: int, i: int| #![trigger m@[j][i]]
            0 <= j < m@.len() && 0 <= i < m@.len() ==> m@[j][i] == (if i == j {
                1i64
            } else {
                0i64
            }),
    ensures
        eval_grid(scalar_grid(m@)) == Ok::<SpecNum, crate::errors::LinAlgError>(
            SpecNum::Scalar(1),
        ),
{
    lemma_scalar_grid_identity(m@);
    lemma_det_identity(m@.len() as int);
}

/// A square matrix whose last two rows are equal has, wherever `det`
/// succeeds, the determinant zero.
pub proof fn lemma_det_equal_last_rows_matrix(m: Matrix)
    requires
        m.wf(),
        m.spec_shape().0 == m.spec_shape().1,
        m@.len() >= 2,
        m@[m@.len() - 2] == m@[m@.len() - 1],
    ensures
        eval_grid(scalar_grid(m@)) matches Ok(v) ==> v == SpecNum::Scalar(0),
{
    let sg = scalar_grid(m@);
    assert(forall|j: int|
        0 <= j < sg.len() ==> #[trigger] sg[j] == m@[j].map_values(
            |x: i64| SpecNum::Scalar(x as int),
        ));
    assert(is_square(sg));
    assert(all_scalar(sg)) by {
        assert(forall|j: int, i: int| #![trigger sg[j][i]]
            0 <= j < sg.len() && 0 <= i < sg[j].len() ==> sg[j][i] == SpecNum::Scalar(
                m@[j][i] as int,
            ));
    }
    assert(sg[sg.len() - 2] == sg[sg.len() - 1]);
    lemma_equal_last_rows(sg);
}

/// The column `x` of a row-major grid, as its own sequence.
pub open spec fn col_of(g: Seq<Seq<i64>>, x: int) -> Seq<i64> {
    Seq::new(g.len(), |j: int| g[j][x])
}

/// Whether every elementwise sum of the two grids stays representable.
pub open spec fn grid_fits_add(a: Seq<Seq<i64>>, b: Seq<Seq<i64>>) -> bool {
    forall|j: int, i: int| #![trigger a[j][i], b[j][i]]
        0 <= j < a.len() && 0 <= i < a[j].len() ==> fits(a[j][i] + b[j][i])
}

/// Whether every elementwise difference of the two grids stays representable.
pub open spec fn grid_fits_sub(a: Seq<Seq<i64>>, b: Seq<Seq<i64>>) -> bool {
    forall|j: int, i: int| #![trigger a[j][i], b[j][i]]
        0 <= j < a.len() && 0 <= i < a[j].len() ==> fits(a[j][i] - b[j][i])
}

/// Whether every elementwise product of the two grids stays representable.
pub open spec fn grid_fits_mul(a: Seq<Seq<i64>>, b: Seq<Seq<i64>>) -> bool {
    forall|j: int, i: int| #![trigger a[j][i], b[j][i]]
        0 <= j < a.len() && 0 <= i < a[j].len() ==> fits(a[j][i] * b[j][i])
}

/// Whether the grid holds no zero anywhere.
pub open spec fn grid_no_zero(b: Seq<Seq<i64>>) -> bool {
    forall|j: int, i: int| #![trigger b[j][i]]
        0 <= j < b.len() && 0 <= i < b[j].len() ==> b[j][i] != 0
}

/// Whether every elementwise quotient of the two grids stays representable.
pub open spec fn grid_fits_div(a: Seq<Seq<i64>>, b: Seq<Seq<i64>>) -> bool {
    forall|j: int, i: int| #![trigger a[j][i], b[j][i]]
        0 <= j < a.len() && 0 <= i < a[j].len() ==> fits(
            crate::vector::tdiv(a[j][i] as int, b[j][i] as int),
        )
}

/// The entry of the Kronecker product of `a` and `b` at row `j`, column
/// `i`, where `d` is `b`'s shape `(columns, rows)`: the row and column are
/// split by division and remainder into an index into `a` and one into `b`.
pub open spec fn kron_entry(a: Seq<Seq<i64>>, b: Seq<Seq<i64>>, d: (int, int), j: int, i: int) -> int {
    a[j / d.1][i / d.0] * b[j % d.1][i % d.0]
}

/// The largest element of a grid with at least one row, all rows
/// non-empty.
pub open spec fn mat_max(g: Seq<Seq<i64>>) -> i64
    recommends
        g.len() > 0,
    decreases g.len(),
{
    if g.len() <= 1 {
        crate::vector::seq_max(g[0])
    } else if mat_max(g.drop_last()) >= crate::vector::seq_max(g.last()) {
        mat_max(g.drop_last())
    } else {
        crate::vector::seq_max(g.last())
    }
}

/// The smallest element of a grid with at least one row, all rows
/// non-empty.
pub open spec fn mat_min(g: Seq<Seq<i64>>) -> i64
    recommends
        g.len() > 0,
    decreases g.len(),
{
    if g.len() <= 1 {
        crate::vector::seq_min(g[0])
    } else if mat_min(g.drop_last()) <= crate::vector::seq_min(g.last()) {
        mat_min(g.drop_last())
    } else {
        crate::vector::seq_min(g.last())
    }
}

/// The affine image of a value under the map that takes `[mn, mx]` onto
/// `[down, up]`, interpolating with rounding toward zero.
pub open spec fn restrict_map(down: int, up: int, mn: int, mx: int, x: int) -> int {
    down + (x - mn) * (up - down) / (mx - mn)
}

/// The affine rescaling is endpoint-exact: the lower extreme maps onto
/// `down` and the upper extreme onto `up`, whatever rounding does in
/// between.
pub proof fn lemma_restrict_endpoints(down: int, up: int, mn: int, mx: int)
    requires
        down < up,
        mn < mx,
    ensures
        restrict_map(down, up, mn, mx, mn) == down,
        restrict_map(down, up, mn, mx, mx) == up,
{
    assert((mx - mn) * (up - down) / (mx - mn) == up - down) by (nonlinear_arith)
        requires
            mx - mn > 0,
    ;
}

/// Whether the affine rescaling of every entry of `g` onto `[down, up]`
/// stays representable at each step: the interval widths and each
/// entry's offset-product must fit; the interpolated values themselves
/// always lie between `down` and `up`.
pub open spec fn restrict_fits(g: Seq<Seq<i64>>, down: int, up: int) -> bool {
    fits(up - down) && fits(mat_max(g) - mat_min(g)) && forall|j: int, i: int|
        #![trigger g[j][i]]
        0 <= j < g.len() && 0 <= i < g[j].len() ==> fits((g[j][i] - mat_min(g)) * (up - down))
}

/// The largest grid element is an element and bounds every element.
pub proof fn lemma_mat_max_props(g: Seq<Seq<i64>>)
    requires
        g.len() > 0,
        forall|j: int| 0 <= j < g.len() ==> (#[trigger] g[j]).len() > 0,
    ensures
        exists|j: int, i: int|
            0 <= j < g.len() && 0 <= i < g[j].len() && g[j][i] == mat_max(g),
        forall|j: int, i: int| #![trigger g[j][i]]
            0 <= j < g.len() && 0 <= i < g[j].len() ==> g[j][i] <= mat_max(g),
    decreases g.len(),
{
    crate::vector::lemma_seq_max_props(g.last());
    if g.len() == 1 {
        let i = choose|i: int| 0 <= i < g[0].len() && g[0][i] == mat_max(g);
        assert(0 <= 0 < g.len() && 0 <= i < g[0].len() && g[0][i] == mat_max(g));
    } else {
        let d = g.drop_last();
        lemma_mat_max_props(d);
        assert forall|j: int, i: int| #![trigger g[j][i]]
            0 <= j < g.len() && 0 <= i < g[j].len() implies g[j][i] <= mat_max(g) by {
            if j < g.len() - 1 {
                assert(d[j][i] == g[j][i]);
            }
        }
        if mat_max(d) >= crate::vector::seq_max(g.last()) {
            let (j, i) = choose|j: int, i: int|
                0 <= j < d.len() && 0 <= i < d[j].len() && d[j][i] == mat_max(d);
            assert(g[j][i] == mat_max(g));
        } else {
            let i = choose|i: int|
                0 <= i < g.last().len() && g.last()[i] == crate::vector::seq_max(g.last());
            assert(g[g.len() - 1][i] == mat_max(g));
        }
    }
}

/// The smallest grid element is an element and is below every element.
pub proof fn lemma_mat_min_props(g: Seq<Seq<i64>>)
    requires
        g.len() > 0,
        forall|j: int| 0 <= j < g.len() ==> (#[trigger] g[j]).len() > 0,
    ensures
        exists|j: int, i: int|
            0 <= j < g.len() && 0 <= i < g[j].len() && g[j][i] == mat_min(g),
        forall|j: int, i: int| #![trigger g[j][i]]
            0 <= j < g.len() && 0 <= i < g[j].len() ==> mat_min(g) <= g[j][i],
    decreases g.len(),
{
    crate::vector::lemma_seq_min_props(g.last());
    if g.len() == 1 {
        let i = choose|i: int| 0 <= i < g[0].len() && g[0][i] == mat_min(g);
        assert(0 <= 0 < g.len() && 0 <= i < g[0].len() && g[0][i] == mat_min(g));
    } else {
        let d = g.drop_last();
        lemma_mat_min_props(d);
        assert forall|j: int, i: int| #![trigger g[j][i]]
            0 <= j < g.len() && 0 <= i < g[j].len() implies mat_min(g) <= g[j][i] by {
            if j < g.len() - 1 {
                assert(d[j][i] == g[j][i]);
            }
        }
        if mat_min(d) <= crate::vector::seq_min(g.last()) {
            let (j, i) = choose|j: int, i: int|
                0 <= j < d.len() && 0 <= i < d[j].len() && d[j][i] == mat_min(d);
            assert(g[j][i] == mat_min(g));
        } else {
            let i = choose|i: int|
                0 <= i < g.last().len() && g.last()[i] == crate::vector::seq_min(g.last());
            assert(g[g.len() - 1][i] == mat_min(g));
        }
    }
}

/// An ordered collection of equal-length row vectors of exact `i64`
/// scalars. The shape is `(columns, rows)`; every row holds exactly
/// `columns` elements.
#[derive(Debug, PartialEq)]
pub struct Matrix {
    vec: Vec<Vector>,
    shape: (usize, usize),
}

impl View for Matrix {
    type V = Seq<Seq<i64>>;

    closed spec fn view(&self) -> Seq<Seq<i64>> {
        self.vec@.map_values(|r: Vector| r@)
    }
}

impl Clone for Matrix {
    /// An exact copy: the clone holds the same rows and shape.
    fn clone(&self) -> (r: Self)
        ensures
            r@ == self@,
            r.spec_shape() == self.spec_shape(),
            self.wf() ==> r.wf(),
    {
        let mut buf: Vec<Vector> = Vec::new();
        let mut j: usize = 0;
        while j < self.vec.len()
            invariant
                0 <= j <= self.vec@.len(),
                buf@.len() == j,
                forall|k: int| 0 <= k < j ==> (#[trigger] buf@[k])@ == self.vec@[k]@,
            decreases self.vec@.len() - j,
        {
            buf.push(self.vec[j].clone());
            j += 1;
        }
        let r = Matrix { vec: buf, shape: self.shape };
        proof {
            assert(r@ =~= self@);
        }
        r
    }
}

impl Relu for Matrix {
    open spec fn relu_for_view(&self) -> Seq<Seq<i64>> {
        self@.map_values(|row: Seq<i64>| row.map_values(|x: i64| relu64(x)))
    }

    open spec fn relu_back_view(&self) -> Seq<Seq<i64>> {
        self@.map_values(|row: Seq<i64>| row.map_values(|x: i64| relu64_back(x)))
    }

    fn relu_for(&self) -> (r: Self)
        ensures
            r@ == self.relu_for_view(),
    {
        let mut buf: Vec<Vector> = Vec::new();
        let mut j: usize = 0;
        while j < self.vec.len()
            invariant
                0 <= j <= self.vec@.len(),
                buf@.len() == j,
                forall|k: int|
                    0 <= k < j ==> (#[trigger] buf@[k])@ == self.vec@[k]@.map_values(
                        |x: i64| relu64(x),
                    ),
            decreases self.vec@.len() - j,
        {
            buf.push(self.vec[j].relu_for());
            j += 1;
        }
        let r = Matrix { vec: buf, shape: self.shape };
        proof {
            assert forall|k: int| 0 <= k < self@.len() implies r@[k] == self@[k].map_values(
                |x: i64| relu64(x),
            ) by {
                assert(self@[k] == self.vec@[k]@);
            }
            assert(r@ =~= self.relu_for_view());
        }
        r
    }

    fn relu_back(&self) -> (r: Self)
        ensures
            r@ == self.relu_back_view(),
    {
        let mut buf: Vec<Vector> = Vec::new();
        let mut j: usize = 0;
        while j < self.vec.len()
            invariant
                0 <= j <= self.vec@.len(),
                buf@.len() == j,
                forall|k: int|
                    0 <= k < j ==> (#[trigger] buf@[k])@ == self.vec@[k]@.map_values(
                        |x: i64| relu64_back(x),
                    ),
            decreases self.vec@.len() - j,
        {
            buf.push(self.vec[j].relu_back());
            j += 1;
        }
        let r = Matrix { vec: buf, shape: self.shape };
        proof {
            assert forall|k: int| 0 <= k < self@.len() implies r@[k] == self@[k].map_values(
                |x: i64| relu64_back(x),
            ) by {
                assert(self@[k] == self.vec@[k]@);
            }
            assert(r@ =~= self.relu_back_view());
        }
        r
    }
}

impl Matrix {
    /// The shape `(columns, rows)` the matrix was built with.
    pub closed spec fn spec_shape(self) -> (nat, nat) {
        (self.shape.0 as nat, self.shape.1 as nat)
    }

    /// Structural soundness: the row count and every row's length agree
    /// with the stated shape.
    pub open spec fn wf(self) -> bool {
        self@.len() == self.spec_shape().1 && forall|j: int|
            0 <= j < self@.len() ==> (#[trigger] self@[j]).len() == self.spec_shape().0
    }

    /// An all-zero matrix of shape `(columns, rows)`.
    pub fn new(shape: (usize, usize)) -> (r: Matrix)
        ensures
            r.wf(),
            r.spec_shape() == (shape.0 as nat, shape.1 as nat),
            forall|j: int, i: int|
                0 <= j < shape.1 && 0 <= i < shape.0 ==> r@[j][i] == 0,
    {
        let mut buf: Vec<Vector> = Vec::new();
        let mut j: usize = 0;
        while j < shape.1
            invariant
                0 <= j <= shape.1,
                buf@.len() == j,
                forall|k: int| 0 <= k < j ==> (#[trigger] buf@[k])@.len() == shape.0,
                forall|k: int, i: int| #![trigger buf@[k]@[i]]
                    0 <= k < j && 0 <= i < shape.0 ==> buf@[k]@[i] == 0,
            decreases shape.1 - j,
        {
            buf.push(Vector::new(shape.0));
            j += 1;
        }
        Matrix { vec: buf, shape }
    }

    /// A matrix holding exactly the given rows of values.
    pub fn from<const X: usize, const Y: usize>(val: [[i64; X]; Y]) -> (r: Matrix)
        ensures
            r.wf(),
            r.spec_shape() == (X as nat, Y as nat),
            forall|j: int, i: int|
                0 <= j < Y && 0 <= i < X ==> r@[j][i] == val@[j]@[i],
    {
        let mut buf: Vec<Vector> = Vec::new();
        let mut j: usize = 0;
        while j < Y
            invariant
                0 <= j <= Y,
                buf@.len() == j,
                forall|k: int| 0 <= k < j ==> (#[trigger] buf@[k])@.len() == X,
                forall|k: int, i: int| #![trigger buf@[k]@[i]]
                    0 <= k < j && 0 <= i < X ==> buf@[k]@[i] == val@[k]@[i],
            decreases Y - j,
        {
            buf.push(Vector::from(val[j]));
            j += 1;
        }
        Matrix { vec: buf, shape: (X, Y) }
    }

    /// A matrix holding exactly the given rows of values.
    pub fn from_i<const X: usize, const Y: usize>(val: [[i64; X]; Y]) -> (r: Matrix)
        ensures
            r.wf(),
            r.spec_shape() == (X as nat, Y as nat),
            forall|j: int, i: int|
                0 <= j < Y && 0 <= i < X ==> r@[j][i] == val@[j]@[i],
    {
        Matrix::from(val)
    }

    /// A matrix built from a sequence of rows; every row must have the
    /// same length as the first. An empty sequence gives the empty matrix.
    pub fn from_vec(val: Vec<Vec<i64>>) -> (r: Result<Matrix, LinAlgError>)
        ensures
            val@.len() == 0 ==> (r matches Ok(m) && m.wf() && m.spec_shape() == (0nat, 0nat)),
            val@.len() > 0 && (exists|j: int|
                0 <= j < val@.len() && (#[trigger] val@[j])@.len() != val@[0]@.len()) ==> r
                == Err::<Matrix, LinAlgError>(LinAlgError::ShapeMismatch),
            val@.len() > 0 && (forall|j: int|
                0 <= j < val@.len() ==> (#[trigger] val@[j])@.len() == val@[0]@.len()) ==> (
            r matches Ok(m) && m.wf() && m.spec_shape() == (val@[0]@.len(), val@.len())
                && forall|j: int| 0 <= j < val@.len() ==> #[trigger] m@[j] == val@[j]@),
    {
        if val.len() == 0 {
            return Ok(Matrix { vec: Vec::new(), shape: (0, 0) });
        }
        let standard_length = val[0].len();
        let mut buf: Vec<Vector> = Vec::new();
        let mut j: usize = 0;
        while j < val.len()
            invariant
                standard_length == val@[0]@.len(),
                0 <= j <= val@.len(),
                buf@.len() == j,
                forall|k: int| 0 <= k < j ==> (#[trigger] val@[k])@.len() == standard_length,
                forall|k: int| 0 <= k < j ==> (#[trigger] buf@[k])@ == val@[k]@,
            decreases val@.len() - j,
        {
            if val[j].len() != standard_length {
                return Err(LinAlgError::ShapeMismatch);
            }
            buf.push(Vector::from_vec(val[j].clone()));
            j += 1;
        }
        Ok(Matrix { vec: buf, shape: (standard_length, val.len()) })
    }

    /// The shape `(columns, rows)`.
    pub fn shape(&self) -> (r: (usize, usize))
        ensures
            r.0 == self.spec_shape().0,
            r.1 == self.spec_shape().1,
    {
        self.shape
    }

    /// Whether both matrices have the same shape.
    pub fn same_shape(&self, rhs: &Matrix) -> (r: bool)
        ensures
            r == (self.spec_shape() == rhs.spec_shape()),
    {
        self.shape.0 == rhs.shape.0 && self.shape.1 == rhs.shape.1
    }

    /// The element in column `x` of row `y`.
    pub fn get(&self, x: usize, y: usize) -> (r: Result<i64, LinAlgError>)
        requires
            self.wf(),
        ensures
            x < self.spec_shape().0 && y < self.spec_shape().1 ==> r == Ok::<i64, LinAlgError>(
                self@[y as int][x as int],
            ),
            !(x < self.spec_shape().0 && y < self.spec_shape().1) ==> r == Err::<i64, LinAlgError>(
                LinAlgError::IndexOutOfRange,
            ),
    {
        if x < self.shape.0 && y < self.shape.1 {
            proof {
                assert(self@[y as int] == self.vec@[y as int]@);
            }
            Ok(self.vec[y].get_val()[x])
        } else {
            Err(LinAlgError::IndexOutOfRange)
        }
    }

    /// All rows as plain buffers of values.
    pub fn get_val(&self) -> (r: Vec<Vec<i64>>)
        ensures
            r@.len() == self@.len(),
            forall|j: int| 0 <= j < self@.len() ==> (#[trigger] r@[j])@ == self@[j],
    {
        let mut out: Vec<Vec<i64>> = Vec::new();
        let mut j: usize = 0;
        while j < self.vec.len()
            invariant
                0 <= j <= self@.len(),
                self@.len() == self.vec@.len(),
                out@.len() == j,
                forall|k: int| 0 <= k < j ==> (#[trigger] out@[k])@ == self@[k],
            decreases self.vec@.len() - j,
        {
            out.push(self.vec[j].get_val().clone());
            j += 1;
        }
        out
    }

    /// Replaces the element in column `place.0` of row `place.1`.
    pub fn change_place(&mut self, place: (usize, usize), val: i64) -> (r: Result<
        (),
        LinAlgError,
    >)
        requires
            old(self).wf(),
        ensures
            final(self).wf(),
            final(self).spec_shape() == old(self).spec_shape(),
            place.0 < old(self).spec_shape().0 && place.1 < old(self).spec_shape().1 ==> (
            r is Ok && final(self)@ == old(self)@.update(
                place.1 as int,
                old(self)@[place.1 as int].update(place.0 as int, val),
            )),
            !(place.0 < old(self).spec_shape().0 && place.1 < old(self).spec_shape().1) ==> (r
                == Err::<(), LinAlgError>(LinAlgError::IndexOutOfRange)
                && final(self)@ == old(self)@),
    {
        if place.0 < self.shape.0 && place.1 < self.shape.1 {
            let mut row = self.vec.remove(place.1);
            let _ = row.change_place(place.0, val);
            self.vec.insert(place.1, row);
            proof {
                assert(self@ =~= old(self)@.update(
                    place.1 as int,
                    old(self)@[place.1 as int].update(place.0 as int, val),
                ));
            }
            Ok(())
        } else {
            Err(LinAlgError::IndexOutOfRange)
        }
    }

    /// Replaces the row at height `y` with the given values.
    pub fn change_row<const X: usize>(&mut self, y: usize, val: [i64; X]) -> (r: Result<
        (),
        LinAlgError,
    >)
        requires
            old(self).wf(),
        ensures
            final(self).wf(),
            final(self).spec_shape() == old(self).spec_shape(),
            X == old(self).spec_shape().0 && y < old(self).spec_shape().1 ==> (r is Ok
                && final(self)@ == old(self)@.update(y as int, val@)),
            !(X == old(self).spec_shape().0 && y < old(self).spec_shape().1) ==> (r == Err::<
                (),
                LinAlgError,
            >(LinAlgError::ShapeMismatch) && final(self)@ == old(self)@),
    {
        if X == self.shape.0 && y < self.shape.1 {
            self.vec.set(y, Vector::from(val));
            proof {
                assert(self@ =~= old(self)@.update(y as int, val@));
            }
            Ok(())
        } else {
            Err(LinAlgError::ShapeMismatch)
        }
    }

    /// Replaces the column at offset `x` with the given values.
    pub fn change_col<const Y: usize>(&mut self, x: usize, val: [i64; Y]) -> (r: Result<
        (),
        LinAlgError,
    >)
        requires
            old(self).wf(),
        ensures
            final(self).wf(),
            final(self).spec_shape() == old(self).spec_shape(),
            Y == old(self).spec_shape().1 && x < old(self).spec_shape().0 ==> (r is Ok
                && final(self)@.len() == old(self)@.len() && forall|j: int, i: int|
                0 <= j < old(self)@.len() && 0 <= i < old(self)@[j].len() ==> final(self)@[j][i]
                    == (if i == x {
                    val@[j]
                } else {
                    old(self)@[j][i]
                })),
            !(Y == old(self).spec_shape().1 && x < old(self).spec_shape().0) ==> (r == Err::<
                (),
                LinAlgError,
            >(LinAlgError::ShapeMismatch) && final(self)@ == old(self)@),
    {
        if Y == self.shape.1 && x < self.shape.0 {
            let mut j: usize = 0;
            while j < Y
                invariant
                    self.wf(),
                    self.spec_shape() == old(self).spec_shape(),
                    Y == self.spec_shape().1,
                    x < self.spec_shape().0,
                    0 <= j <= Y,
                    forall|k: int, i: int|
                        0 <= k < j && 0 <= i < self@[k].len() ==> self@[k][i] == (if i == x {
                            val@[k]
                        } else {
                            old(self)@[k][i]
                        }),
                    forall|k: int| j <= k < Y ==> #[trigger] self@[k] == old(self)@[k],
                decreases Y - j,
            {
                let _ = self.change_place((x, j), val[j]);
                j += 1;
            }
            Ok(())
        } else {
            Err(LinAlgError::ShapeMismatch)
        }
    }

    /// The elementwise sum of the two matrices; the shapes must agree and
    /// every elementwise sum must stay representable.
    pub fn add(&self, rhs: &Matrix) -> (r: Result<Matrix, LinAlgError>)
        requires
            self.wf(),
            rhs.wf(),
        ensures
            self.spec_shape() != rhs.spec_shape() ==> r == Err::<Matrix, LinAlgError>(
                LinAlgError::ShapeMismatch,
            ),
            self.spec_shape() == rhs.spec_shape() && grid_fits_add(self@, rhs@) ==> (r matches Ok(m)
                && m.wf() && m.spec_shape() == self.spec_shape() && forall|j: int, i: int|
                #![trigger m@[j][i]]
                0 <= j < self@.len() && 0 <= i < self@[j].len() ==> m@[j][i] == self@[j][i]
                    + rhs@[j][i]),
            self.spec_shape() == rhs.spec_shape() && !grid_fits_add(self@, rhs@) ==> r == Err::<
                Matrix,
                LinAlgError,
            >(LinAlgError::Overflow),
    {
        if !self.same_shape(rhs) {
            return Err(LinAlgError::ShapeMismatch);
        }
        let rows = self.shape.1;
        let mut buf: Vec<Vector> = Vec::new();
        let mut j: usize = 0;
        while j < rows
            invariant
                self.wf(),
                rhs.wf(),
                self.spec_shape() == rhs.spec_shape(),
                rows == self.spec_shape().1,
                0 <= j <= rows,
                buf@.len() == j,
                forall|k: int| 0 <= k < j ==> (#[trigger] buf@[k])@.len() == self.spec_shape().0,
                forall|k: int, i: int| #![trigger self@[k][i], rhs@[k][i]]
                    0 <= k < j && 0 <= i < self@[k].len() ==> fits(self@[k][i] + rhs@[k][i]),
                forall|k: int, i: int| #![trigger buf@[k]@[i]]
                    0 <= k < j && 0 <= i < self@[k].len() ==> buf@[k]@[i] == self@[k][i]
                        + rhs@[k][i],
            decreases rows - j,
        {
            proof {
                assert(self@[j as int] == self.vec@[j as int]@);
                assert(rhs@[j as int] == rhs.vec@[j as int]@);
            }
            match self.vec[j].add(&rhs.vec[j]) {
                Ok(v) => {
                    let ghost vg = v@;
                    let ghost bufg = buf@;
                    buf.push(v);
                    proof {
                        assert forall|k: int, i: int| #![trigger self@[k][i], rhs@[k][i]]
                            0 <= k < j + 1 && 0 <= i < self@[k].len() implies fits(
                            self@[k][i] + rhs@[k][i],
                        ) by {
                            if k == j as int {
                                assert(self@[k] == self.vec@[k]@);
                                assert(rhs@[k] == rhs.vec@[k]@);
                                assert(vg[i] == self.vec@[k]@[i] + rhs.vec@[k]@[i] && fits(
                                    self.vec@[k]@[i] + rhs.vec@[k]@[i],
                                ));
                            }
                        }
                        assert forall|k: int, i: int| #![trigger buf@[k]@[i]]
                            0 <= k < j + 1 && 0 <= i < self@[k].len() implies buf@[k]@[i]
                            == self@[k][i] + rhs@[k][i] by {
                            if k == j as int {
                                assert(buf@[k]@ == vg);
                                assert(self@[k] == self.vec@[k]@);
                                assert(rhs@[k] == rhs.vec@[k]@);
                                assert(vg[i] == self.vec@[k]@[i] + rhs.vec@[k]@[i]);
                            } else {
                                assert(buf@[k] == bufg[k]);
                                assert(bufg[k]@[i] == self@[k][i] + rhs@[k][i]);
                            }
                        }
                    }
                },
                Err(e) => {
                    proof {
                        let jj = j as int;
                        assert(!(forall|i: int|
                            0 <= i < self@[jj].len() ==> fits(self@[jj][i] + rhs@[jj][i])));
                        let iw = choose|i: int|
                            0 <= i < self@[jj].len() && !fits(self@[jj][i] + rhs@[jj][i]);
                        assert(!fits(self@[jj][iw] + rhs@[jj][iw]));
                        assert(!grid_fits_add(self@, rhs@));
                    }
                    return Err(LinAlgError::Overflow);
                },
            }
            j += 1;
        }
        proof {
            assert forall|k: int, i: int| #![trigger self@[k][i], rhs@[k][i]]
                0 <= k < self@.len() && 0 <= i < self@[k].len() implies fits(self@[k][i] + rhs@[k][i]) by {
                assert(buf@[k]@[i] == self@[k][i] + rhs@[k][i]);
            }
            assert(grid_fits_add(self@, rhs@));
        }
        Ok(Matrix { vec: buf, shape: self.shape })
    }

    /// The elementwise difference of the two matrices; the shapes must
    /// agree and every elementwise difference must stay representable.
    pub fn sub(&self, rhs: &Matrix) -> (r: Result<Matrix, LinAlgError>)
        requires
            self.wf(),
            rhs.wf(),
        ensures
            self.spec_shape() != rhs.spec_shape() ==> r == Err::<Matrix, LinAlgError>(
                LinAlgError::ShapeMismatch,
            ),
            self.spec_shape() == rhs.spec_shape() && grid_fits_sub(self@, rhs@) ==> (r matches Ok(m)
                && m.wf() && m.spec_shape() == self.spec_shape() && forall|j: int, i: int|
                #![trigger m@[j][i]]
                0 <= j < self@.len() && 0 <= i < self@[j].len() ==> m@[j][i] == self@[j][i]
                    - rhs@[j][i]),
            self.spec_shape() == rhs.spec_shape() && !grid_fits_sub(self@, rhs@) ==> r == Err::<
                Matrix,
                LinAlgError,
            >(LinAlgError::Overflow),
    {
        if !self.same_shape(rhs) {
            return Err(LinAlgError::ShapeMismatch);
        }
        let rows = self.shape.1;
        let mut buf: Vec<Vector> = Vec::new();
        let mut j: usize = 0;
        while j < rows
            invariant
                self.wf(),
                rhs.wf(),
                self.spec_shape() == rhs.spec_shape(),
                rows == self.spec_shape().1,
                0 <= j <= rows,
                buf@.len() == j,
                forall|k: int| 0 <= k < j ==> (#[trigger] buf@[k])@.len() == self.spec_shape().0,
                forall|k: int, i: int| #![trigger self@[k][i], rhs@[k][i]]
                    0 <= k < j && 0 <= i < self@[k].len() ==> fits(self@[k][i] - rhs@[k][i]),
                forall|k: int, i: int| #![trigger buf@[k]@[i]]
                    0 <= k < j && 0 <= i < self@[k].len() ==> buf@[k]@[i] == self@[k][i] - rhs@[k][i],
            decreases rows - j,
        {
            proof {
                assert(self@[j as int] == self.vec@[j as int]@);
                assert(rhs@[j as int] == rhs.vec@[j as int]@);
            }
            match self.vec[j].sub(&rhs.vec[j]) {
                Ok(v) => {
                    let ghost vg = v@;
                    let ghost bufg = buf@;
                    buf.push(v);
                    proof {
                        assert forall|k: int, i: int| #![trigger self@[k][i], rhs@[k][i]]
                            0 <= k < j + 1 && 0 <= i < self@[k].len() implies fits(
                            self@[k][i] - rhs@[k][i],
                        ) by {
                            if k == j as int {
                                assert(self@[k] == self.vec@[k]@);
                                assert(rhs@[k] == rhs.vec@[k]@);
                                assert(vg[i] == self.vec@[k]@[i] - rhs.vec@[k]@[i] && fits(
                                    self.vec@[k]@[i] - rhs.vec@[k]@[i],
                                ));
                            }
                        }
                        assert forall|k: int, i: int| #![trigger buf@[k]@[i]]
                            0 <= k < j + 1 && 0 <= i < self@[k].len() implies buf@[k]@[i]
                            == self@[k][i] - rhs@[k][i] by {
                            if k == j as int {
                                assert(buf@[k]@ == vg);
                                assert(self@[k] == self.vec@[k]@);
                                assert(rhs@[k] == rhs.vec@[k]@);
                                assert(vg[i] == self.vec@[k]@[i] - rhs.vec@[k]@[i]);
                            } else {
                                assert(buf@[k] == bufg[k]);
                                assert(bufg[k]@[i] == self@[k][i] - rhs@[k][i]);
                            }
                        }
                    }
                },
                Err(e) => {
                    proof {
                        let jj = j as int;
                        assert(!(forall|i: int|
                            0 <= i < self@[jj].len() ==> fits(self@[jj][i] - rhs@[jj][i])));
                        let iw = choose|i: int|
                            0 <= i < self@[jj].len() && !fits(self@[jj][i] - rhs@[jj][i]);
                        assert(!fits(self@[jj][iw] - rhs@[jj][iw]));
                        assert(!grid_fits_sub(self@, rhs@));
                    }
                    return Err(LinAlgError::Overflow);
                },
            }
            j += 1;
        }
        proof {
            assert forall|k: int, i: int| #![trigger self@[k][i], rhs@[k][i]]
                0 <= k < self@.len() && 0 <= i < self@[k].len() implies fits(self@[k][i] - rhs@[k][i]) by {
                assert(buf@[k]@[i] == self@[k][i] - rhs@[k][i]);
            }
            assert(grid_fits_sub(self@, rhs@));
        }
        Ok(Matrix { vec: buf, shape: self.shape })
    }

    /// The elementwise (Hadamard) product of the two matrices; the shapes
    /// must agree and every elementwise product must stay representable.
    pub fn had_product(&self, rhs: &Matrix) -> (r: Result<Matrix, LinAlgError>)
        requires
            self.wf(),
            rhs.wf(),
        ensures
            self.spec_shape() != rhs.spec_shape() ==> r == Err::<Matrix, LinAlgError>(
                LinAlgError::ShapeMismatch,
            ),
            self.spec_shape() == rhs.spec_shape() && grid_fits_mul(self@, rhs@) ==> (r matches Ok(m)
                && m.wf() && m.spec_shape() == self.spec_shape() && forall|j: int, i: int|
                #![trigger m@[j][i]]
                0 <= j < self@.len() && 0 <= i < self@[j].len() ==> m@[j][i] == self@[j][i]
                    * rhs@[j][i]),
            self.spec_shape() == rhs.spec_shape() && !grid_fits_mul(self@, rhs@) ==> r == Err::<
                Matrix,
                LinAlgError,
            >(LinAlgError::Overflow),
    {
        if !self.same_shape(rhs) {
            return Err(LinAlgError::ShapeMismatch);
        }
        let rows = self.shape.1;
        let mut buf: Vec<Vector> = Vec::new();
        let mut j: usize = 0;
        while j < rows
            invariant
                self.wf(),
                rhs.wf(),
                self.spec_shape() == rhs.spec_shape(),
                rows == self.spec_shape().1,
                0 <= j <= rows,
                buf@.len() == j,
                forall|k: int| 0 <= k < j ==> (#[trigger] buf@[k])@.len() == self.spec_shape().0,
                forall|k: int, i: int| #![trigger self@[k][i], rhs@[k][i]]
                    0 <= k < j && 0 <= i < self@[k].len() ==> fits(self@[k][i] * rhs@[k][i]),
                forall|k: int, i: int| #![trigger buf@[k]@[i]]
                    0 <= k < j && 0 <= i < self@[k].len() ==> buf@[k]@[i] == self@[k][i] * rhs@[k][i],
            decreases rows - j,
        {
            proof {
                assert(self@[j as int] == self.vec@[j as int]@);
                assert(rhs@[j as int] == rhs.vec@[j as int]@);
            }
            match self.vec[j].had_product(&rhs.vec[j]) {
                Ok(v) => {
                    let ghost vg = v@;
                    let ghost bufg = buf@;
                    buf.push(v);
                    proof {
                        assert forall|k: int, i: int| #![trigger self@[k][i], rhs@[k][i]]
                            0 <= k < j + 1 && 0 <= i < self@[k].len() implies fits(
                            self@[k][i] * rhs@[k][i],
                        ) by {
                            if k == j as int {
                                assert(self@[k] == self.vec@[k]@);
                                assert(rhs@[k] == rhs.vec@[k]@);
                                assert(vg[i] == self.vec@[k]@[i] * rhs.vec@[k]@[i] && fits(
                                    self.vec@[k]@[i] * rhs.vec@[k]@[i],
                                ));
                            }
                        }
                        assert forall|k: int, i: int| #![trigger buf@[k]@[i]]
                            0 <= k < j + 1 && 0 <= i < self@[k].len() implies buf@[k]@[i]
                            == self@[k][i] * rhs@[k][i] by {
                            if k == j as int {
                                assert(buf@[k]@ == vg);
                                assert(self@[k] == self.vec@[k]@);
                                assert(rhs@[k] == rhs.vec@[k]@);
                                assert(vg[i] == self.vec@[k]@[i] * rhs.vec@[k]@[i]);
                            } else {
                                assert(buf@[k] == bufg[k]);
                                assert(bufg[k]@[i] == self@[k][i] * rhs@[k][i]);
                            }
                        }
                    }
                },
                Err(e) => {
                    proof {
                        let jj = j as int;
                        assert(!(forall|i: int|
                            0 <= i < self@[jj].len() ==> fits(self@[jj][i] * rhs@[jj][i])));
                        let iw = choose|i: int|
                            0 <= i < self@[jj].len() && !fits(self@[jj][i] * rhs@[jj][i]);
                        assert(!fits(self@[jj][iw] * rhs@[jj][iw]));
                        assert(!grid_fits_mul(self@, rhs@));
                    }
                    return Err(LinAlgError::Overflow);
                },
            }
            j += 1;
        }
        proof {
            assert forall|k: int, i: int| #![trigger self@[k][i], rhs@[k][i]]
                0 <= k < self@.len() && 0 <= i < self@[k].len() implies fits(self@[k][i] * rhs@[k][i]) by {
                assert(buf@[k]@[i] == self@[k][i] * rhs@[k][i]);
            }
            assert(grid_fits_mul(self@, rhs@));
        }
        Ok(Matrix { vec: buf, shape: self.shape })
    }

    /// The elementwise quotient of the two matrices, truncating toward
    /// zero; the shapes must agree, no divisor may be zero, and every
    /// quotient must stay representable.
    pub fn div(&self, rhs: &Matrix) -> (r: Result<Matrix, LinAlgError>)
        requires
            self.wf(),
            rhs.wf(),
        ensures
            self.spec_shape() != rhs.spec_shape() ==> r == Err::<Matrix, LinAlgError>(
                LinAlgError::ShapeMismatch,
            ),
            self.spec_shape() == rhs.spec_shape() && !grid_no_zero(rhs@) ==> r == Err::<
                Matrix,
                LinAlgError,
            >(LinAlgError::DivisionByZero),
            self.spec_shape() == rhs.spec_shape() && grid_no_zero(rhs@) && grid_fits_div(
                self@,
                rhs@,
            ) ==> (r matches Ok(m) && m.wf() && m.spec_shape() == self.spec_shape() && forall|
                j: int,
                i: int,
            |
                #![trigger m@[j][i]]
                0 <= j < self@.len() && 0 <= i < self@[j].len() ==> m@[j][i] == crate::vector::tdiv(
                    self@[j][i] as int,
                    rhs@[j][i] as int,
                )),
            self.spec_shape() == rhs.spec_shape() && grid_no_zero(rhs@) && !grid_fits_div(
                self@,
                rhs@,
            ) ==> r == Err::<Matrix, LinAlgError>(LinAlgError::Overflow),
    {
        if !self.same_shape(rhs) {
            return Err(LinAlgError::ShapeMismatch);
        }
        let rows = self.shape.1;
        let cols = self.shape.0;
        let mut j: usize = 0;
        while j < rows
            invariant
                self.wf(),
                rhs.wf(),
                self.spec_shape() == rhs.spec_shape(),
                rows == self.spec_shape().1,
                cols == self.spec_shape().0,
                0 <= j <= rows,
                forall|k: int, i: int| #![trigger rhs@[k][i]]
                    0 <= k < j && 0 <= i < rhs@[k].len() ==> rhs@[k][i] != 0,
            decreases rows - j,
        {
            let mut i: usize = 0;
            while i < cols
                invariant
                    self.wf(),
                    rhs.wf(),
                    self.spec_shape() == rhs.spec_shape(),
                    rows == self.spec_shape().1,
                    cols == self.spec_shape().0,
                    0 <= j < rows,
                    0 <= i <= cols,
                    forall|k: int, l: int| #![trigger rhs@[k][l]]
                        0 <= k < j && 0 <= l < rhs@[k].len() ==> rhs@[k][l] != 0,
                    forall|l: int| 0 <= l < i ==> rhs@[j as int][l] != 0,
                decreases cols - i,
            {
                proof {
                    assert(rhs@[j as int] == rhs.vec@[j as int]@);
                }
                if rhs.vec[j].get_val()[i] == 0 {
                    proof {
                        assert(rhs@[j as int][i as int] == 0);
                        assert(!grid_no_zero(rhs@));
                    }
                    return Err(LinAlgError::DivisionByZero);
                }
                i += 1;
            }
            j += 1;
        }
        let mut buf: Vec<Vector> = Vec::new();
        let mut j: usize = 0;
        while j < rows
            invariant
                self.wf(),
                rhs.wf(),
                self.spec_shape() == rhs.spec_shape(),
                rows == self.spec_shape().1,
                grid_no_zero(rhs@),
                0 <= j <= rows,
                buf@.len() == j,
                forall|k: int| 0 <= k < j ==> (#[trigger] buf@[k])@.len() == self.spec_shape().0,
                forall|k: int, i: int| #![trigger self@[k][i], rhs@[k][i]]
                    0 <= k < j && 0 <= i < self@[k].len() ==> fits(crate::vector::tdiv(self@[k][i] as int, rhs@[k][i] as int)),
                forall|k: int, i: int| #![trigger buf@[k]@[i]]
                    0 <= k < j && 0 <= i < self@[k].len() ==> buf@[k]@[i] == crate::vector::tdiv(self@[k][i] as int, rhs@[k][i] as int),
            decreases rows - j,
        {
            proof {
                assert(self@[j as int] == self.vec@[j as int]@);
                assert(rhs@[j as int] == rhs.vec@[j as int]@);
                assert(forall|i: int|
                    0 <= i < rhs@[j as int].len() ==> #[trigger] rhs@[j as int][i] != 0);
            }
            match self.vec[j].div(&rhs.vec[j]) {
                Ok(v) => {
                    let ghost vg = v@;
                    let ghost bufg = buf@;
                    buf.push(v);
                    proof {
                        assert forall|k: int, i: int| #![trigger self@[k][i], rhs@[k][i]]
                            0 <= k < j + 1 && 0 <= i < self@[k].len() implies fits(
                            crate::vector::tdiv(self@[k][i] as int, rhs@[k][i] as int),
                        ) by {
                            if k == j as int {
                                assert(self@[k] == self.vec@[k]@);
                                assert(rhs@[k] == rhs.vec@[k]@);
                                assert(vg[i] == crate::vector::tdiv(
                                    self.vec@[k]@[i] as int,
                                    rhs.vec@[k]@[i] as int,
                                ) && fits(
                                    crate::vector::tdiv(self.vec@[k]@[i] as int, rhs.vec@[k]@[i] as int),
                                ));
                            }
                        }
                        assert forall|k: int, i: int| #![trigger buf@[k]@[i]]
                            0 <= k < j + 1 && 0 <= i < self@[k].len() implies buf@[k]@[i]
                            == crate::vector::tdiv(self@[k][i] as int, rhs@[k][i] as int) by {
                            if k == j as int {
                                assert(buf@[k]@ == vg);
                                assert(self@[k] == self.vec@[k]@);
                                assert(rhs@[k] == rhs.vec@[k]@);
                                assert(vg[i] == crate::vector::tdiv(
                                    self.vec@[k]@[i] as int,
                                    rhs.vec@[k]@[i] as int,
                                ));
                            } else {
                                assert(buf@[k] == bufg[k]);
                                assert(bufg[k]@[i] == crate::vector::tdiv(self@[k][i] as int, rhs@[k][i] as int));
                            }
                        }
                    }
                },
                Err(e) => {
                    proof {
                        let jj = j as int;
                        assert(!(forall|i: int|
                            0 <= i < self@[jj].len() ==> fits(
                                crate::vector::tdiv(self@[jj][i] as int, rhs@[jj][i] as int),
                            )));
                        let iw = choose|i: int|
                            0 <= i < self@[jj].len() && !fits(
                                crate::vector::tdiv(self@[jj][i] as int, rhs@[jj][i] as int),
                            );
                        assert(!fits(crate::vector::tdiv(self@[jj][iw] as int, rhs@[jj][iw] as int)));
                        assert(!grid_fits_div(self@, rhs@));
                    }
                    return Err(LinAlgError::Overflow);
                },
            }
            j += 1;
        }
        proof {
            assert forall|k: int, i: int| #![trigger self@[k][i], rhs@[k][i]]
                0 <= k < self@.len() && 0 <= i < self@[k].len() implies fits(crate::vector::tdiv(self@[k][i] as int, rhs@[k][i] as int)) by {
                assert(buf@[k]@[i] == crate::vector::tdiv(self@[k][i] as int, rhs@[k][i] as int));
            }
            assert(grid_fits_div(self@, rhs@));
        }
        Ok(Matrix { vec: buf, shape: self.shape })
    }

    /// The transposed matrix: the element in column `x` of row `y` moves to
    /// column `y` of row `x`, and the shape swaps accordingly.
    pub fn t(&self) -> (r: Matrix)
        requires
            self.wf(),
        ensures
            r.wf(),
            r.spec_shape().0 == self.spec_shape().1,
            r.spec_shape().1 == self.spec_shape().0,
            forall|i: int, j: int|
                0 <= i < self.spec_shape().0 && 0 <= j < self.spec_shape().1 ==> r@[i][j]
                    == self@[j][i],
            r@ == transpose_of(self@, self.spec_shape().0 as int),
    {
        let (cols, rows) = self.shape;
        let mut buf: Vec<Vector> = Vec::new();
        let mut i: usize = 0;
        while i < cols
            invariant
                self.wf(),
                cols == self.spec_shape().0,
                rows == self.spec_shape().1,
                0 <= i <= cols,
                buf@.len() == i,
                forall|k: int| 0 <= k < i ==> (#[trigger] buf@[k])@.len() == rows,
                forall|k: int, j: int| #![trigger buf@[k]@[j]]
                    0 <= k < i && 0 <= j < rows ==> buf@[k]@[j] == self@[j][k],
            decreases cols - i,
        {
            let mut buf_1: Vec<i64> = Vec::new();
            let mut j: usize = 0;
            while j < rows
                invariant
                    self.wf(),
                    cols == self.spec_shape().0,
                    rows == self.spec_shape().1,
                    i < cols,
                    0 <= j <= rows,
                    buf_1@.len() == j,
                    forall|k: int| 0 <= k < j ==> buf_1@[k] == self@[k][i as int],
                decreases rows - j,
            {
                proof {
                    assert(self@[j as int] == self.vec@[j as int]@);
                }
                buf_1.push(self.vec[j].get_val()[i]);
                j += 1;
            }
            buf.push(Vector::from_vec(buf_1));
            i += 1;
        }
        let r = Matrix { vec: buf, shape: (rows, cols) };
        proof {
            let t = transpose_of(self@, cols as int);
            assert forall|k: int| 0 <= k < cols implies r@[k] == t[k] by {
                assert(r@[k] =~= t[k]);
            }
            assert(r@ =~= t);
        }
        r
    }

    /// The matrix scaled elementwise by `times`; every product must stay
    /// representable.
    pub fn strech(&self, times: i64) -> (r: Result<Matrix, LinAlgError>)
        requires
            self.wf(),
        ensures
            (forall|j: int, i: int| #![trigger self@[j][i]]
                0 <= j < self@.len() && 0 <= i < self@[j].len() ==> fits(self@[j][i] * times))
                ==> (r matches Ok(m) && m.wf() && m.spec_shape() == self.spec_shape() && forall|
                j: int,
                i: int,
            |
                #![trigger m@[j][i]]
                0 <= j < self@.len() && 0 <= i < self@[j].len() ==> m@[j][i] == self@[j][i]
                    * times),
            !(forall|j: int, i: int| #![trigger self@[j][i]]
                0 <= j < self@.len() && 0 <= i < self@[j].len() ==> fits(self@[j][i] * times))
                ==> r == Err::<Matrix, LinAlgError>(LinAlgError::Overflow),
    {
        let rows = self.shape.1;
        let mut buf: Vec<Vector> = Vec::new();
        let mut j: usize = 0;
        while j < rows
            invariant
                self.wf(),
                rows == self.spec_shape().1,
                0 <= j <= rows,
                buf@.len() == j,
                forall|k: int| 0 <= k < j ==> (#[trigger] buf@[k])@.len() == self.spec_shape().0,
                forall|k: int, i: int| #![trigger self@[k][i]]
                    0 <= k < j && 0 <= i < self@[k].len() ==> fits(self@[k][i] * times),
                forall|k: int, i: int| #![trigger buf@[k]@[i]]
                    0 <= k < j && 0 <= i < self@[k].len() ==> buf@[k]@[i] == self@[k][i] * times,
            decreases rows - j,
        {
            proof {
                assert(self@[j as int] == self.vec@[j as int]@);
            }
            match self.vec[j].strech(times) {
                Ok(v) => {
                    let ghost vg = v@;
                    let ghost bufg = buf@;
                    buf.push(v);
                    proof {
                        assert forall|k: int, i: int| #![trigger self@[k][i]]
                            0 <= k < j + 1 && 0 <= i < self@[k].len() implies fits(
                            self@[k][i] * times,
                        ) by {
                            if k == j as int {
                                assert(self@[k] == self.vec@[k]@);
                                assert(vg[i] == self.vec@[k]@[i] * times && fits(
                                    self.vec@[k]@[i] * times,
                                ));
                            }
                        }
                        assert forall|k: int, i: int| #![trigger buf@[k]@[i]]
                            0 <= k < j + 1 && 0 <= i < self@[k].len() implies buf@[k]@[i]
                            == self@[k][i] * times by {
                            if k == j as int {
                                assert(buf@[k]@ == vg);
                                assert(self@[k] == self.vec@[k]@);
                                assert(vg[i] == self.vec@[k]@[i] * times);
                            } else {
                                assert(buf@[k] == bufg[k]);
                                assert(bufg[k]@[i] == self@[k][i] * times);
                            }
                        }
                    }
                },
                Err(e) => {
                    proof {
                        let jj = j as int;
                        assert(!(forall|i: int|
                            0 <= i < self@[jj].len() ==> fits(self@[jj][i] * times)));
                        let iw = choose|i: int|
                            0 <= i < self@[jj].len() && !fits(self@[jj][i] * times);
                        assert(!fits(self@[jj][iw] * times));
                    }
                    return Err(LinAlgError::Overflow);
                },
            }
            j += 1;
        }
        proof {
            assert forall|k: int, i: int| #![trigger self@[k][i]]
                0 <= k < self@.len() && 0 <= i < self@[k].len() implies fits(
                self@[k][i] * times,
            ) by {
                assert(buf@[k]@[i] == self@[k][i] * times);
            }
        }
        Ok(Matrix { vec: buf, shape: self.shape })
    }

    /// Scales the matrix in place by `times`.
    pub fn strech_assign(&mut self, times: i64) -> (r: Result<(), LinAlgError>)
        requires
            old(self).wf(),
        ensures
            r is Err ==> *final(self) == *old(self),
            (forall|j: int, i: int| #![trigger old(self)@[j][i]]
                0 <= j < old(self)@.len() && 0 <= i < old(self)@[j].len() ==> fits(
                    old(self)@[j][i] * times,
                )) ==> r is Ok,
            !(forall|j: int, i: int| #![trigger old(self)@[j][i]]
                0 <= j < old(self)@.len() && 0 <= i < old(self)@[j].len() ==> fits(
                    old(self)@[j][i] * times,
                )) ==> r == Err::<(), LinAlgError>(LinAlgError::Overflow),
            r is Ok ==> (final(self).wf() && final(self).spec_shape() == old(self).spec_shape()
                && forall|j: int, i: int|
                #![trigger final(self)@[j][i]]
                0 <= j < old(self)@.len() && 0 <= i < old(self)@[j].len() ==> final(self)@[j][i]
                    == old(self)@[j][i] * times),
    {
        match self.strech(times) {
            Ok(m) => {
                *self = m;
                Ok(())
            },
            Err(e) => Err(e),
        }
    }

    /// Adds `rhs` elementwise in place.
    pub fn add_assign(&mut self, rhs: &Matrix) -> (r: Result<(), LinAlgError>)
        requires
            old(self).wf(),
            rhs.wf(),
        ensures
            r is Err ==> *final(self) == *old(self),
            old(self).spec_shape() != rhs.spec_shape() ==> r == Err::<(), LinAlgError>(
                LinAlgError::ShapeMismatch,
            ),
            old(self).spec_shape() == rhs.spec_shape() && grid_fits_add(old(self)@, rhs@) ==> r is Ok,
            old(self).spec_shape() == rhs.spec_shape() && !grid_fits_add(old(self)@, rhs@) ==> r
                == Err::<(), LinAlgError>(LinAlgError::Overflow),
            r is Ok ==> (final(self).wf() && final(self).spec_shape() == old(self).spec_shape()
                && forall|j: int, i: int|
                #![trigger final(self)@[j][i]]
                0 <= j < old(self)@.len() && 0 <= i < old(self)@[j].len() ==> final(self)@[j][i]
                    == old(self)@[j][i] + rhs@[j][i]),
    {
        match self.add(rhs) {
            Ok(m) => {
                *self = m;
                Ok(())
            },
            Err(e) => Err(e),
        }
    }

    /// Subtracts `rhs` elementwise in place.
    pub fn sub_assign(&mut self, rhs: &Matrix) -> (r: Result<(), LinAlgError>)
        requires
            old(self).wf(),
            rhs.wf(),
        ensures
            r is Err ==> *final(self) == *old(self),
            old(self).spec_shape() != rhs.spec_shape() ==> r == Err::<(), LinAlgError>(
                LinAlgError::ShapeMismatch,
            ),
            old(self).spec_shape() == rhs.spec_shape() && grid_fits_sub(old(self)@, rhs@) ==> r is Ok,
            old(self).spec_shape() == rhs.spec_shape() && !grid_fits_sub(old(self)@, rhs@) ==> r
                == Err::<(), LinAlgError>(LinAlgError::Overflow),
            r is Ok ==> (final(self).wf() && final(self).spec_shape() == old(self).spec_shape()
                && forall|j: int, i: int|
                #![trigger final(self)@[j][i]]
                0 <= j < old(self)@.len() && 0 <= i < old(self)@[j].len() ==> final(self)@[j][i]
                    == old(self)@[j][i] - rhs@[j][i]),
    {
        match self.sub(rhs) {
            Ok(m) => {
                *self = m;
                Ok(())
            },
            Err(e) => Err(e),
        }
    }

    /// Multiplies by `rhs` elementwise in place.
    pub fn had_product_assign(&mut self, rhs: &Matrix) -> (r: Result<(), LinAlgError>)
        requires
            old(self).wf(),
            rhs.wf(),
        ensures
            r is Err ==> *final(self) == *old(self),
            old(self).spec_shape() != rhs.spec_shape() ==> r == Err::<(), LinAlgError>(
                LinAlgError::ShapeMismatch,
            ),
            old(self).spec_shape() == rhs.spec_shape() && grid_fits_mul(old(self)@, rhs@) ==> r is Ok,
            old(self).spec_shape() == rhs.spec_shape() && !grid_fits_mul(old(self)@, rhs@) ==> r
                == Err::<(), LinAlgError>(LinAlgError::Overflow),
            r is Ok ==> (final(self).wf() && final(self).spec_shape() == old(self).spec_shape()
                && forall|j: int, i: int|
                #![trigger final(self)@[j][i]]
                0 <= j < old(self)@.len() && 0 <= i < old(self)@[j].len() ==> final(self)@[j][i]
                    == old(self)@[j][i] * rhs@[j][i]),
    {
        match self.had_product(rhs) {
            Ok(m) => {
                *self = m;
                Ok(())
            },
            Err(e) => Err(e),
        }
    }

    /// Divides by `rhs` elementwise in place, truncating toward zero.
    pub fn div_assign(&mut self, rhs: &Matrix) -> (r: Result<(), LinAlgError>)
        requires
            old(self).wf(),
            rhs.wf(),
        ensures
            r is Err ==> *final(self) == *old(self),
            old(self).spec_shape() != rhs.spec_shape() ==> r == Err::<(), LinAlgError>(
                LinAlgError::ShapeMismatch,
            ),
            old(self).spec_shape() == rhs.spec_shape() && !grid_no_zero(rhs@) ==> r == Err::<
                (),
                LinAlgError,
            >(LinAlgError::DivisionByZero),
            old(self).spec_shape() == rhs.spec_shape() && grid_no_zero(rhs@) && grid_fits_div(
                old(self)@,
                rhs@,
            ) ==> r is Ok,
            old(self).spec_shape() == rhs.spec_shape() && grid_no_zero(rhs@) && !grid_fits_div(
                old(self)@,
                rhs@,
            ) ==> r == Err::<(), LinAlgError>(LinAlgError::Overflow),
            r is Ok ==> (final(self).wf() && final(self).spec_shape() == old(self).spec_shape()
                && forall|j: int, i: int|
                #![trigger final(self)@[j][i]]
                0 <= j < old(self)@.len() && 0 <= i < old(self)@[j].len() ==> final(self)@[j][i]
                    == crate::vector::tdiv(old(self)@[j][i] as int, rhs@[j][i] as int)),
    {
        match self.div(rhs) {
            Ok(m) => {
                *self = m;
                Ok(())
            },
            Err(e) => Err(e),
        }
    }

    /// The new matrix with `op` applied to each element.
    pub fn oper<F: Fn(i64) -> i64>(&self, op: &F) -> (r: Matrix)
        requires
            self.wf(),
            forall|j: int, i: int| #![trigger self@[j][i]]
                0 <= j < self@.len() && 0 <= i < self@[j].len() ==> call_requires(
                    op,
                    (self@[j][i],),
                ),
        ensures
            r.wf(),
            r.spec_shape() == self.spec_shape(),
            forall|j: int, i: int| #![trigger r@[j][i]]
                0 <= j < self@.len() && 0 <= i < self@[j].len() ==> call_ensures(
                    op,
                    (self@[j][i],),
                    r@[j][i],
                ),
    {
        let rows = self.shape.1;
        let mut buf: Vec<Vector> = Vec::new();
        let mut j: usize = 0;
        while j < rows
            invariant
                self.wf(),
                rows == self.spec_shape().1,
                forall|k: int, i: int| #![trigger self@[k][i]]
                    0 <= k < self@.len() && 0 <= i < self@[k].len() ==> call_requires(
                        op,
                        (self@[k][i],),
                    ),
                0 <= j <= rows,
                buf@.len() == j,
                forall|k: int| 0 <= k < j ==> (#[trigger] buf@[k])@.len() == self.spec_shape().0,
                forall|k: int, i: int| #![trigger buf@[k]@[i]]
                    0 <= k < j && 0 <= i < self@[k].len() ==> call_ensures(
                        op,
                        (self@[k][i],),
                        buf@[k]@[i],
                    ),
            decreases rows - j,
        {
            proof {
                assert(self@[j as int] == self.vec@[j as int]@);
                assert forall|i: int|
                    0 <= i < self.vec@[j as int]@.len() implies call_requires(
                    op,
                    (#[trigger] self.vec@[j as int]@[i],),
                ) by {
                    assert(self@[j as int][i] == self.vec@[j as int]@[i]);
                }
            }
            let v = self.vec[j].oper(op);
            let ghost vg = v@;
            let ghost bufg = buf@;
            buf.push(v);
            proof {
                assert forall|k: int, i: int| #![trigger buf@[k]@[i]]
                    0 <= k < j + 1 && 0 <= i < self@[k].len() implies call_ensures(
                    op,
                    (self@[k][i],),
                    buf@[k]@[i],
                ) by {
                    if k == j as int {
                        assert(buf@[k]@ == vg);
                        assert(self@[k] == self.vec@[k]@);
                        assert(call_ensures(op, (self.vec@[k]@[i],), vg[i]));
                    } else {
                        assert(buf@[k] == bufg[k]);
                        assert(call_ensures(op, (self@[k][i],), bufg[k]@[i]));
                    }
                }
            }
            j += 1;
        }
        Matrix { vec: buf, shape: self.shape }
    }

    /// Applies `op` to each element in place.
    pub fn oper_assign<F: Fn(i64) -> i64>(&mut self, op: &F)
        requires
            old(self).wf(),
            forall|j: int, i: int| #![trigger old(self)@[j][i]]
                0 <= j < old(self)@.len() && 0 <= i < old(self)@[j].len() ==> call_requires(
                    op,
                    (old(self)@[j][i],),
                ),
        ensures
            final(self).wf(),
            final(self).spec_shape() == old(self).spec_shape(),
            forall|j: int, i: int| #![trigger final(self)@[j][i]]
                0 <= j < old(self)@.len() && 0 <= i < old(self)@[j].len() ==> call_ensures(
                    op,
                    (old(self)@[j][i],),
                    final(self)@[j][i],
                ),
    {
        let r = self.oper(op);
        *self = r;
    }

    /// The new matrix built by combining the two operands elementwise with
    /// `op`; the shapes must agree.
    pub fn oper_with<F: Fn(i64, i64) -> i64>(&self, rhs: &Matrix, op: &F) -> (r: Result<
        Matrix,
        LinAlgError,
    >)
        requires
            self.wf(),
            rhs.wf(),
            self.spec_shape() == rhs.spec_shape() ==> forall|j: int, i: int|
                #![trigger self@[j][i], rhs@[j][i]]
                0 <= j < self@.len() && 0 <= i < self@[j].len() ==> call_requires(
                    op,
                    (self@[j][i], rhs@[j][i]),
                ),
        ensures
            self.spec_shape() != rhs.spec_shape() ==> r == Err::<Matrix, LinAlgError>(
                LinAlgError::ShapeMismatch,
            ),
            self.spec_shape() == rhs.spec_shape() ==> (r matches Ok(m) && m.wf() && m.spec_shape()
                == self.spec_shape() && forall|j: int, i: int|
                #![trigger m@[j][i]]
                0 <= j < self@.len() && 0 <= i < self@[j].len() ==> call_ensures(
                    op,
                    (self@[j][i], rhs@[j][i]),
                    m@[j][i],
                )),
    {
        if !self.same_shape(rhs) {
            return Err(LinAlgError::ShapeMismatch);
        }
        let rows = self.shape.1;
        let mut buf: Vec<Vector> = Vec::new();
        let mut j: usize = 0;
        while j < rows
            invariant
                self.wf(),
                rhs.wf(),
                self.spec_shape() == rhs.spec_shape(),
                rows == self.spec_shape().1,
                forall|k: int, i: int| #![trigger self@[k][i], rhs@[k][i]]
                    0 <= k < self@.len() && 0 <= i < self@[k].len() ==> call_requires(
                        op,
                        (self@[k][i], rhs@[k][i]),
                    ),
                0 <= j <= rows,
                buf@.len() == j,
                forall|k: int| 0 <= k < j ==> (#[trigger] buf@[k])@.len() == self.spec_shape().0,
                forall|k: int, i: int| #![trigger buf@[k]@[i]]
                    0 <= k < j && 0 <= i < self@[k].len() ==> call_ensures(
                        op,
                        (self@[k][i], rhs@[k][i]),
                        buf@[k]@[i],
                    ),
            decreases rows - j,
        {
            proof {
                assert(self@[j as int] == self.vec@[j as int]@);
                assert(rhs@[j as int] == rhs.vec@[j as int]@);
                assert forall|i: int|
                    0 <= i < self.vec@[j as int]@.len() implies call_requires(
                    op,
                    (#[trigger] self.vec@[j as int]@[i], rhs.vec@[j as int]@[i]),
                ) by {
                    assert(self@[j as int][i] == self.vec@[j as int]@[i]);
                    assert(rhs@[j as int][i] == rhs.vec@[j as int]@[i]);
                }
            }
            let v = match self.vec[j].oper_with(&rhs.vec[j], op) {
                Ok(v) => v,
                Err(e) => {
                    proof {
                        assert(false);
                    }
                    return Err(e);
                },
            };
            let ghost vg = v@;
            let ghost bufg = buf@;
            buf.push(v);
            proof {
                assert forall|k: int, i: int| #![trigger buf@[k]@[i]]
                    0 <= k < j + 1 && 0 <= i < self@[k].len() implies call_ensures(
                    op,
                    (self@[k][i], rhs@[k][i]),
                    buf@[k]@[i],
                ) by {
                    if k == j as int {
                        assert(buf@[k]@ == vg);
                        assert(self@[k] == self.vec@[k]@);
                        assert(rhs@[k] == rhs.vec@[k]@);
                        assert(call_ensures(op, (self.vec@[k]@[i], rhs.vec@[k]@[i]), vg[i]));
                    } else {
                        assert(buf@[k] == bufg[k]);
                        assert(call_ensures(op, (self@[k][i], rhs@[k][i]), bufg[k]@[i]));
                    }
                }
            }
            j += 1;
        }
        Ok(Matrix { vec: buf, shape: self.shape })
    }

    /// Combines with `rhs` elementwise in place; the shapes must agree.
    pub fn oper_with_assign<F: Fn(i64, i64) -> i64>(&mut self, rhs: &Matrix, op: &F) -> (r: Result<
        (),
        LinAlgError,
    >)
        requires
            old(self).wf(),
            rhs.wf(),
            old(self).spec_shape() == rhs.spec_shape() ==> forall|j: int, i: int|
                #![trigger old(self)@[j][i], rhs@[j][i]]
                0 <= j < old(self)@.len() && 0 <= i < old(self)@[j].len() ==> call_requires(
                    op,
                    (old(self)@[j][i], rhs@[j][i]),
                ),
        ensures
            old(self).spec_shape() != rhs.spec_shape() ==> (r == Err::<(), LinAlgError>(
                LinAlgError::ShapeMismatch,
            ) && *final(self) == *old(self)),
            old(self).spec_shape() == rhs.spec_shape() ==> (r is Ok && final(self).wf() && final(self).spec_shape() == old(self).spec_shape() && forall|j: int, i: int|
                #![trigger final(self)@[j][i]]
                0 <= j < old(self)@.len() && 0 <= i < old(self)@[j].len() ==> call_ensures(
                    op,
                    (old(self)@[j][i], rhs@[j][i]),
                    final(self)@[j][i],
                )),
    {
        match self.oper_with(rhs, op) {
            Ok(m) => {
                *self = m;
                Ok(())
            },
            Err(e) => Err(e),
        }
    }

    /// The rows from `from` (inclusive) to `to` (exclusive), as their own
    /// matrix.
    pub fn slice(&self, from: usize, to: usize) -> (r: Result<Matrix, LinAlgError>)
        requires
            self.wf(),
        ensures
            from >= to ==> r == Err::<Matrix, LinAlgError>(LinAlgError::InvalidRange),
            from < to && to > self.spec_shape().1 ==> r == Err::<Matrix, LinAlgError>(
                LinAlgError::IndexOutOfRange,
            ),
            from < to && to <= self.spec_shape().1 ==> (r matches Ok(m) && m.wf() && m.spec_shape()
                == (self.spec_shape().0, (to - from) as nat) && m@ == self@.subrange(
                from as int,
                to as int,
            )),
    {
        if from >= to {
            return Err(LinAlgError::InvalidRange);
        }
        if to > self.shape.1 {
            return Err(LinAlgError::IndexOutOfRange);
        }
        let mut buf: Vec<Vector> = Vec::new();
        let mut j: usize = from;
        while j < to
            invariant
                self.wf(),
                from < to <= self.spec_shape().1,
                from <= j <= to,
                buf@.len() == j - from,
                forall|k: int| 0 <= k < j - from ==> (#[trigger] buf@[k])@ == self@[from + k],
            decreases to - j,
        {
            buf.push(self.vec[j].clone());
            proof {
                assert(buf@[j - from]@ == self.vec@[j as int]@);
                assert(self@[j as int] == self.vec@[j as int]@);
            }
            j += 1;
        }
        let m = Matrix { vec: buf, shape: (self.shape.0, to - from) };
        proof {
            assert(m@ =~= self@.subrange(from as int, to as int));
        }
        Ok(m)
    }

    /// A matrix built from a sequence of columns; every column must have
    /// the same length as the first.
    pub fn from_ver_vec(val: Vec<Vec<i64>>) -> (r: Result<Matrix, LinAlgError>)
        ensures
            val@.len() == 0 ==> (r matches Ok(m) && m.wf() && m.spec_shape() == (0nat, 0nat)),
            val@.len() > 0 && (exists|j: int|
                0 <= j < val@.len() && (#[trigger] val@[j])@.len() != val@[0]@.len()) ==> r
                == Err::<Matrix, LinAlgError>(LinAlgError::ShapeMismatch),
            val@.len() > 0 && (forall|j: int|
                0 <= j < val@.len() ==> (#[trigger] val@[j])@.len() == val@[0]@.len()) ==> (
            r matches Ok(m) && m.wf() && m.spec_shape() == (val@.len(), val@[0]@.len())
                && forall|j: int, i: int|
                #![trigger m@[j][i]]
                0 <= j < val@[0]@.len() && 0 <= i < val@.len() ==> m@[j][i] == val@[i]@[j]),
    {
        let m = match Matrix::from_vec(val) {
            Ok(m) => m,
            Err(e) => {
                return Err(e);
            },
        };
        Ok(m.t())
    }

    /// A matrix built from a sequence of columns of plain integers.
    pub fn from_ver_vec_i(val: Vec<Vec<i64>>) -> (r: Result<Matrix, LinAlgError>)
        ensures
            val@.len() == 0 ==> (r matches Ok(m) && m.wf() && m.spec_shape() == (0nat, 0nat)),
            val@.len() > 0 && (exists|j: int|
                0 <= j < val@.len() && (#[trigger] val@[j])@.len() != val@[0]@.len()) ==> r
                == Err::<Matrix, LinAlgError>(LinAlgError::ShapeMismatch),
            val@.len() > 0 && (forall|j: int|
                0 <= j < val@.len() ==> (#[trigger] val@[j])@.len() == val@[0]@.len()) ==> (
            r matches Ok(m) && m.wf() && m.spec_shape() == (val@.len(), val@[0]@.len())
                && forall|j: int, i: int|
                #![trigger m@[j][i]]
                0 <= j < val@[0]@.len() && 0 <= i < val@.len() ==> m@[j][i] == val@[i]@[j]),
    {
        Matrix::from_ver_vec(val)
    }

    /// The Kronecker product: a block-structured product whose shape is the
    /// elementwise product of the two shapes. Both target dimensions must
    /// be addressable and every elementwise product must stay representable.
    pub fn kron_product(&self, rhs: &Matrix) -> (r: Result<Matrix, LinAlgError>)
        requires
            self.wf(),
            rhs.wf(),
        ensures
            self.spec_shape().0 * rhs.spec_shape().0 > usize::MAX || self.spec_shape().1
                * rhs.spec_shape().1 > usize::MAX ==> r == Err::<Matrix, LinAlgError>(
                LinAlgError::Overflow,
            ),
            self.spec_shape().0 * rhs.spec_shape().0 <= usize::MAX && self.spec_shape().1
                * rhs.spec_shape().1 <= usize::MAX && (forall|j: int, i: int|
                #![trigger kron_entry(self@, rhs@, (rhs.spec_shape().0 as int, rhs.spec_shape().1 as int), j, i)]
                0 <= j < self.spec_shape().1 * rhs.spec_shape().1 && 0 <= i < self.spec_shape().0
                    * rhs.spec_shape().0 ==> fits(
                    kron_entry(self@, rhs@, (rhs.spec_shape().0 as int, rhs.spec_shape().1 as int), j, i),
                )) ==> (r matches Ok(m) && m.wf() && m.spec_shape().0 == self.spec_shape().0
                * rhs.spec_shape().0 && m.spec_shape().1 == self.spec_shape().1
                * rhs.spec_shape().1 && forall|j: int, i: int|
                #![trigger m@[j][i]]
                0 <= j < m@.len() && 0 <= i < m@[j].len() ==> m@[j][i] == kron_entry(
                    self@,
                    rhs@,
                    (rhs.spec_shape().0 as int, rhs.spec_shape().1 as int),
                    j,
                    i,
                )),
            self.spec_shape().0 * rhs.spec_shape().0 <= usize::MAX && self.spec_shape().1
                * rhs.spec_shape().1 <= usize::MAX && !(forall|j: int, i: int|
                #![trigger kron_entry(self@, rhs@, (rhs.spec_shape().0 as int, rhs.spec_shape().1 as int), j, i)]
                0 <= j < self.spec_shape().1 * rhs.spec_shape().1 && 0 <= i < self.spec_shape().0
                    * rhs.spec_shape().0 ==> fits(
                    kron_entry(self@, rhs@, (rhs.spec_shape().0 as int, rhs.spec_shape().1 as int), j, i),
                )) ==> r == Err::<Matrix, LinAlgError>(LinAlgError::Overflow),
    {
        let c2 = rhs.shape.0;
        let r2 = rhs.shape.1;
        let out_cols = match self.shape.0.checked_mul(c2) {
            Some(v) => v,
            None => {
                return Err(LinAlgError::Overflow);
            },
        };
        let out_rows = match self.shape.1.checked_mul(r2) {
            Some(v) => v,
            None => {
                return Err(LinAlgError::Overflow);
            },
        };
        let ghost d = (rhs.spec_shape().0 as int, rhs.spec_shape().1 as int);
        let mut buf: Vec<Vector> = Vec::new();
        let mut j: usize = 0;
        while j < out_rows
            invariant
                self.wf(),
                rhs.wf(),
                c2 == rhs.spec_shape().0,
                r2 == rhs.spec_shape().1,
                d == (rhs.spec_shape().0 as int, rhs.spec_shape().1 as int),
                out_cols == self.spec_shape().0 * c2,
                out_rows == self.spec_shape().1 * r2,
                0 <= j <= out_rows,
                buf@.len() == j,
                forall|k: int| 0 <= k < j ==> (#[trigger] buf@[k])@.len() == out_cols,
                forall|k: int, i: int| #![trigger kron_entry(self@, rhs@, d, k, i)]
                    0 <= k < j && 0 <= i < out_cols ==> fits(kron_entry(self@, rhs@, d, k, i)),
                forall|k: int, i: int| #![trigger buf@[k]@[i]]
                    0 <= k < j && 0 <= i < out_cols ==> buf@[k]@[i] == kron_entry(
                        self@,
                        rhs@,
                        d,
                        k,
                        i,
                    ),
            decreases out_rows - j,
        {
            proof {
                assert(r2 > 0 && j / r2 < self.spec_shape().1) by (nonlinear_arith)
                    requires
                        0 <= j < out_rows,
                        out_rows == self.spec_shape().1 * r2,
                        r2 >= 0,
                ;
            }
            let a_row = j / r2;
            let b_row = j % r2;
            let mut row: Vec<i64> = Vec::new();
            let mut i: usize = 0;
            while i < out_cols
                invariant
                    self.wf(),
                    rhs.wf(),
                    c2 == rhs.spec_shape().0,
                    r2 == rhs.spec_shape().1,
                    d == (rhs.spec_shape().0 as int, rhs.spec_shape().1 as int),
                    out_cols == self.spec_shape().0 * c2,
                    out_rows == self.spec_shape().1 * r2,
                    0 <= j < out_rows,
                    r2 > 0,
                    a_row == j as int / r2 as int,
                    b_row == j as int % r2 as int,
                    a_row < self.spec_shape().1,
                    b_row < r2,
                    0 <= i <= out_cols,
                    row@.len() == i,
                    forall|l: int| #![trigger kron_entry(self@, rhs@, d, j as int, l)]
                        0 <= l < i ==> fits(kron_entry(self@, rhs@, d, j as int, l)),
                    forall|l: int| #![trigger row@[l]]
                        0 <= l < i ==> row@[l] == kron_entry(self@, rhs@, d, j as int, l),
                decreases out_cols - i,
            {
                proof {
                    assert(c2 > 0 && i / c2 < self.spec_shape().0) by (nonlinear_arith)
                        requires
                            0 <= i < out_cols,
                            out_cols == self.spec_shape().0 * c2,
                            c2 >= 0,
                    ;
                    assert(self@[a_row as int] == self.vec@[a_row as int]@);
                    assert(rhs@[b_row as int] == rhs.vec@[b_row as int]@);
                }
                let a_val = self.vec[a_row].get_val()[i / c2];
                let b_val = rhs.vec[b_row].get_val()[i % c2];
                match a_val.checked_mul(b_val) {
                    Some(p) => {
                        proof {
                            assert(a_val == self@[j as int / d.1][i as int / d.0]);
                            assert(b_val == rhs@[j as int % d.1][i as int % d.0]);
                            assert(p == kron_entry(self@, rhs@, d, j as int, i as int));
                        }
                        row.push(p);
                    },
                    None => {
                        proof {
                            assert(!fits(kron_entry(self@, rhs@, d, j as int, i as int)));
                        }
                        return Err(LinAlgError::Overflow);
                    },
                }
                i += 1;
            }
            let ghost rowg = row@;
            let ghost bufg = buf@;
            buf.push(Vector::from_vec(row));
            proof {
                assert(buf@[j as int]@ == rowg);
                assert forall|k: int, i: int| #![trigger kron_entry(self@, rhs@, d, k, i)]
                    0 <= k < j + 1 && 0 <= i < out_cols implies fits(
                    kron_entry(self@, rhs@, d, k, i),
                ) by {
                    if k == j as int {
                        assert(rowg[i] == kron_entry(self@, rhs@, d, k, i) && fits(
                            kron_entry(self@, rhs@, d, k, i),
                        ));
                    }
                }
                assert forall|k: int, i: int| #![trigger buf@[k]@[i]]
                    0 <= k < j + 1 && 0 <= i < out_cols implies buf@[k]@[i] == kron_entry(
                    self@,
                    rhs@,
                    d,
                    k,
                    i,
                ) by {
                    if k == j as int {
                        assert(buf@[k]@ == rowg);
                        assert(rowg[i] == kron_entry(self@, rhs@, d, k, i));
                    } else {
                        assert(buf@[k] == bufg[k]);
                        assert(bufg[k]@[i] == kron_entry(self@, rhs@, d, k, i));
                    }
                }
            }
            j += 1;
        }
        Ok(Matrix { vec: buf, shape: (out_cols, out_rows) })
    }

    /// Forms the Kronecker product with `rhs` in place.
    pub fn kron_product_assign(&mut self, rhs: &Matrix) -> (r: Result<(), LinAlgError>)
        requires
            old(self).wf(),
            rhs.wf(),
        ensures
            r is Err ==> *final(self) == *old(self),
            old(self).spec_shape().0 * rhs.spec_shape().0 > usize::MAX || old(self).spec_shape().1
                * rhs.spec_shape().1 > usize::MAX ==> r == Err::<(), LinAlgError>(
                LinAlgError::Overflow,
            ),
            old(self).spec_shape().0 * rhs.spec_shape().0 <= usize::MAX && old(self).spec_shape().1
                * rhs.spec_shape().1 <= usize::MAX && (forall|j: int, i: int|
                #![trigger kron_entry(old(self)@, rhs@, (rhs.spec_shape().0 as int, rhs.spec_shape().1 as int), j, i)]
                0 <= j < old(self).spec_shape().1 * rhs.spec_shape().1 && 0 <= i < old(
                    self,
                ).spec_shape().0 * rhs.spec_shape().0 ==> fits(
                    kron_entry(
                        old(self)@,
                        rhs@,
                        (rhs.spec_shape().0 as int, rhs.spec_shape().1 as int),
                        j,
                        i,
                    ),
                )) ==> r is Ok,
            old(self).spec_shape().0 * rhs.spec_shape().0 <= usize::MAX && old(self).spec_shape().1
                * rhs.spec_shape().1 <= usize::MAX && !(forall|j: int, i: int|
                #![trigger kron_entry(old(self)@, rhs@, (rhs.spec_shape().0 as int, rhs.spec_shape().1 as int), j, i)]
                0 <= j < old(self).spec_shape().1 * rhs.spec_shape().1 && 0 <= i < old(
                    self,
                ).spec_shape().0 * rhs.spec_shape().0 ==> fits(
                    kron_entry(
                        old(self)@,
                        rhs@,
                        (rhs.spec_shape().0 as int, rhs.spec_shape().1 as int),
                        j,
                        i,
                    ),
                )) ==> r == Err::<(), LinAlgError>(LinAlgError::Overflow),
            r is Ok ==> (final(self).wf() && final(self).spec_shape().0 == old(self).spec_shape().0
                * rhs.spec_shape().0 && final(self).spec_shape().1 == old(self).spec_shape().1
                * rhs.spec_shape().1 && forall|j: int, i: int|
                #![trigger final(self)@[j][i]]
                0 <= j < final(self)@.len() && 0 <= i < final(self)@[j].len() ==> final(self)@[j][i] == kron_entry(old(self)@, rhs@, (rhs.spec_shape().0 as int, rhs.spec_shape().1 as int), j, i)),
    {
        match self.kron_product(rhs) {
            Ok(m) => {
                *self = m;
                Ok(())
            },
            Err(e) => Err(e),
        }
    }

    /// Rescales all entries affinely so that the matrix's current extremes
    /// map onto `[down, up]`: the minimum goes to `down`, the maximum to
    /// `up`, and everything between is interpolated, rounding toward zero.
    /// The target interval must be non-empty, the matrix must have entries
    /// and a non-zero spread, and every intermediate value must stay
    /// representable.
    pub fn restrict(&mut self, down: i64, up: i64) -> (r: Result<(), LinAlgError>)
        requires
            old(self).wf(),
        ensures
            final(self).wf(),
            final(self).spec_shape() == old(self).spec_shape(),
            r is Err ==> *final(self) == *old(self),
            down >= up ==> r == Err::<(), LinAlgError>(LinAlgError::InvalidRange),
            down < up && (old(self).spec_shape().0 == 0 || old(self).spec_shape().1 == 0) ==> r
                == Err::<(), LinAlgError>(LinAlgError::EmptyVector),
            down < up && old(self).spec_shape().0 > 0 && old(self).spec_shape().1 > 0 && mat_max(
                old(self)@,
            ) == mat_min(old(self)@) ==> r == Err::<(), LinAlgError>(LinAlgError::DegenerateRange),
            down < up && old(self).spec_shape().0 > 0 && old(self).spec_shape().1 > 0 && mat_max(
                old(self)@,
            ) != mat_min(old(self)@) ==> (r is Ok <==> restrict_fits(
                old(self)@,
                down as int,
                up as int,
            )),
            down < up && old(self).spec_shape().0 > 0 && old(self).spec_shape().1 > 0 && mat_max(
                old(self)@,
            ) != mat_min(old(self)@) && !restrict_fits(old(self)@, down as int, up as int) ==> r
                == Err::<(), LinAlgError>(LinAlgError::Overflow),
            r is Ok ==> forall|j: int, i: int|
                #![trigger final(self)@[j][i]]
                0 <= j < old(self)@.len() && 0 <= i < old(self)@[j].len() ==> final(self)@[j][i]
                    == restrict_map(
                    down as int,
                    up as int,
                    mat_min(old(self)@) as int,
                    mat_max(old(self)@) as int,
                    old(self)@[j][i] as int,
                ),
    {
        if down >= up {
            return Err(LinAlgError::InvalidRange);
        }
        if self.shape.0 == 0 || self.shape.1 == 0 {
            return Err(LinAlgError::EmptyVector);
        }
        let mx = match self.max() {
            Ok(v) => v,
            Err(e) => {
                proof {
                    assert(false);
                }
                return Err(e);
            },
        };
        let mn = match self.min() {
            Ok(v) => v,
            Err(e) => {
                proof {
                    assert(false);
                }
                return Err(e);
            },
        };
        if mx == mn {
            return Err(LinAlgError::DegenerateRange);
        }
        proof {
            lemma_mat_max_props(self@);
            lemma_mat_min_props(self@);
            let (j, i) = choose|j: int, i: int|
                0 <= j < self@.len() && 0 <= i < self@[j].len() && self@[j][i] == mat_min(self@);
            assert(self@[j][i] <= mat_max(self@));
        }
        let d_ud = match up.checked_sub(down) {
            Some(v) => v,
            None => {
                return Err(LinAlgError::Overflow);
            },
        };
        let d_mm = match mx.checked_sub(mn) {
            Some(v) => v,
            None => {
                return Err(LinAlgError::Overflow);
            },
        };
        let ghost g = self@;
        let rows = self.shape.1;
        let cols = self.shape.0;
        let mut buf: Vec<Vector> = Vec::new();
        let mut j: usize = 0;
        while j < rows
            invariant
                self.wf(),
                *self == *old(self),
                g == self@,
                down < up,
                rows == self.spec_shape().1,
                cols == self.spec_shape().0,
                rows > 0,
                cols > 0,
                mn == mat_min(g),
                mx == mat_max(g),
                mn < mx,
                forall|k: int, i: int| #![trigger g[k][i]]
                    0 <= k < g.len() && 0 <= i < g[k].len() ==> mn <= g[k][i] <= mx,
                d_ud == up - down,
                d_mm == mx - mn,
                0 <= j <= rows,
                buf@.len() == j,
                forall|k: int| 0 <= k < j ==> (#[trigger] buf@[k])@.len() == cols,
                forall|k: int, i: int| #![trigger g[k][i]]
                    0 <= k < j && 0 <= i < g[k].len() ==> fits((g[k][i] - mn) * (up - down)),
                forall|k: int, i: int| #![trigger buf@[k]@[i]]
                    0 <= k < j && 0 <= i < g[k].len() ==> buf@[k]@[i] == restrict_map(
                        down as int,
                        up as int,
                        mn as int,
                        mx as int,
                        g[k][i] as int,
                    ),
            decreases rows - j,
        {
            let mut row: Vec<i64> = Vec::new();
            let mut i: usize = 0;
            while i < cols
                invariant
                    self.wf(),
                    *self == *old(self),
                    g == self@,
                    down < up,
                    rows == self.spec_shape().1,
                    cols == self.spec_shape().0,
                    rows > 0,
                    cols > 0,
                    mn == mat_min(g),
                    mx == mat_max(g),
                    mn < mx,
                    forall|k: int, l: int| #![trigger g[k][l]]
                        0 <= k < g.len() && 0 <= l < g[k].len() ==> mn <= g[k][l] <= mx,
                    d_ud == up - down,
                    d_mm == mx - mn,
                    0 <= j < rows,
                    0 <= i <= cols,
                    row@.len() == i,
                    forall|l: int| #![trigger g[j as int][l]]
                        0 <= l < i ==> fits((g[j as int][l] - mn) * (up - down)),
                    forall|l: int| #![trigger row@[l]]
                        0 <= l < i ==> row@[l] == restrict_map(
                            down as int,
                            up as int,
                            mn as int,
                            mx as int,
                            g[j as int][l] as int,
                        ),
                decreases cols - i,
            {
                proof {
                    assert(self@[j as int] == self.vec@[j as int]@);
                    assert(mn <= g[j as int][i as int] <= mx);
                }
                let x = self.vec[j].get_val()[i];
                let off = match x.checked_sub(mn) {
                    Some(v) => v,
                    None => {
                        proof {
                            assert(false);
                        }
                        return Err(LinAlgError::Overflow);
                    },
                };
                let p = match off.checked_mul(d_ud) {
                    Some(v) => v,
                    None => {
                        proof {
                            assert(!fits((g[j as int][i as int] - mn) * (up - down)));
                            assert(!restrict_fits(g, down as int, up as int)) by {
                                if restrict_fits(g, down as int, up as int) {
                                    assert(0 <= (j as int) && (j as int) < g.len());
                                    assert(0 <= (i as int) && (i as int) < g[j as int].len());
                                    assert(fits(
                                        (g[j as int][i as int] - mat_min(g)) * (up - down),
                                    ));
                                }
                            }
                        }
                        return Err(LinAlgError::Overflow);
                    },
                };
                proof {
                    assert(0 <= off && off <= d_mm);
                    assert(0 <= p && p <= d_mm * d_ud) by (nonlinear_arith)
                        requires
                            0 <= off,
                            off <= d_mm,
                            0 < d_ud,
                            p == off * d_ud,
                    ;
                    assert(0 <= p as int / d_mm as int <= d_ud) by (nonlinear_arith)
                        requires
                            0 <= p,
                            d_mm > 0,
                            0 < d_ud,
                            p <= d_mm * d_ud,
                    ;
                }
                let q = match p.checked_div(d_mm) {
                    Some(v) => v,
                    None => {
                        proof {
                            assert(false);
                        }
                        return Err(LinAlgError::Overflow);
                    },
                };
                let y = match down.checked_add(q) {
                    Some(v) => v,
                    None => {
                        proof {
                            assert(false);
                        }
                        return Err(LinAlgError::Overflow);
                    },
                };
                proof {
                    assert(y == restrict_map(
                        down as int,
                        up as int,
                        mn as int,
                        mx as int,
                        g[j as int][i as int] as int,
                    ));
                }
                row.push(y);
                i += 1;
            }
            let ghost rowg = row@;
            let ghost bufg = buf@;
            buf.push(Vector::from_vec(row));
            proof {
                assert(buf@[j as int]@ == rowg);
                assert forall|k: int, i: int| #![trigger g[k][i]]
                    0 <= k < j + 1 && 0 <= i < g[k].len() implies fits(
                    (g[k][i] - mn) * (up - down),
                ) by {
                    if k == j as int {
                        assert(fits((g[k][i] - mn) * (up - down)));
                    } else {
                        assert(fits((g[k][i] - mn) * (up - down)));
                    }
                }
                assert forall|k: int, i: int| #![trigger buf@[k]@[i]]
                    0 <= k < j + 1 && 0 <= i < g[k].len() implies buf@[k]@[i] == restrict_map(
                    down as int,
                    up as int,
                    mn as int,
                    mx as int,
                    g[k][i] as int,
                ) by {
                    if k == j as int {
                        assert(buf@[k]@ == rowg);
                        assert(rowg[i] == restrict_map(
                            down as int,
                            up as int,
                            mn as int,
                            mx as int,
                            g[k][i] as int,
                        ));
                    } else {
                        assert(buf@[k] == bufg[k]);
                        assert(bufg[k]@[i] == restrict_map(
                            down as int,
                            up as int,
                            mn as int,
                            mx as int,
                            g[k][i] as int,
                        ));
                    }
                }
            }
            j += 1;
        }
        self.vec = buf;
        proof {
            assert(restrict_fits(g, down as int, up as int));
        }
        Ok(())
    }

    /// The column at offset `x`, materialized as its own vector.
    fn col_vec(&self, x: usize) -> (r: Vector)
        requires
            self.wf(),
            x < self.spec_shape().0,
        ensures
            r@ == col_of(self@, x as int),
    {
        let mut out: Vec<i64> = Vec::new();
        let mut j: usize = 0;
        while j < self.vec.len()
            invariant
                self.wf(),
                x < self.spec_shape().0,
                self.vec@.len() == self@.len(),
                0 <= j <= self@.len(),
                out@.len() == j,
                forall|k: int| 0 <= k < j ==> out@[k] == self@[k][x as int],
            decreases self.vec@.len() - j,
        {
            proof {
                assert(self@[j as int] == self.vec@[j as int]@);
            }
            out.push(self.vec[j].get_val()[x]);
            j += 1;
        }
        proof {
            assert(out@ =~= col_of(self@, x as int));
        }
        Vector::from_vec(out)
    }

    /// The matrix product: entry `(j, i)` of the result is the dot product
    /// of row `j` of `self` with column `i` of `rhs`. The inner dimensions
    /// must agree, and every intermediate product and partial sum of the
    /// left-to-right accumulation must stay representable.
    pub fn mul(&self, rhs: &Matrix) -> (r: Result<Matrix, LinAlgError>)
        requires
            self.wf(),
            rhs.wf(),
        ensures
            self.spec_shape().0 != rhs.spec_shape().1 ==> r == Err::<Matrix, LinAlgError>(
                LinAlgError::ShapeMismatch,
            ),
            self.spec_shape().0 == rhs.spec_shape().1 && (forall|j: int, i: int|
                #![trigger dot_chk(self@[j], col_of(rhs@, i))]
                0 <= j < self.spec_shape().1 && 0 <= i < rhs.spec_shape().0 ==> dot_chk(
                    self@[j],
                    col_of(rhs@, i),
                ) is Ok) ==> (r matches Ok(m) && m.wf() && m.spec_shape().0 == rhs.spec_shape().0
                && m.spec_shape().1 == self.spec_shape().1 && forall|j: int, i: int|
                #![trigger m@[j][i]]
                0 <= j < self.spec_shape().1 && 0 <= i < rhs.spec_shape().0 ==> m@[j][i] == dot_int(
                    self@[j],
                    col_of(rhs@, i),
                )),
            self.spec_shape().0 == rhs.spec_shape().1 && !(forall|j: int, i: int|
                #![trigger dot_chk(self@[j], col_of(rhs@, i))]
                0 <= j < self.spec_shape().1 && 0 <= i < rhs.spec_shape().0 ==> dot_chk(
                    self@[j],
                    col_of(rhs@, i),
                ) is Ok) ==> r == Err::<Matrix, LinAlgError>(LinAlgError::Overflow),
    {
        if self.shape.0 != rhs.shape.1 {
            return Err(LinAlgError::ShapeMismatch);
        }
        let out_rows = self.shape.1;
        let out_cols = rhs.shape.0;
        let mut buf: Vec<Vector> = Vec::new();
        let mut j: usize = 0;
        while j < out_rows
            invariant
                self.wf(),
                rhs.wf(),
                self.spec_shape().0 == rhs.spec_shape().1,
                out_rows == self.spec_shape().1,
                out_cols == rhs.spec_shape().0,
                0 <= j <= out_rows,
                buf@.len() == j,
                forall|k: int| 0 <= k < j ==> (#[trigger] buf@[k])@.len() == out_cols,
                forall|k: int, i: int| #![trigger dot_chk(self@[k], col_of(rhs@, i))]
                    0 <= k < j && 0 <= i < out_cols ==> dot_chk(self@[k], col_of(rhs@, i)) is Ok,
                forall|k: int, i: int| #![trigger buf@[k]@[i]]
                    0 <= k < j && 0 <= i < out_cols ==> buf@[k]@[i] == dot_int(
                        self@[k],
                        col_of(rhs@, i),
                    ),
            decreases out_rows - j,
        {
            let mut row: Vec<i64> = Vec::new();
            let mut i: usize = 0;
            while i < out_cols
                invariant
                    self.wf(),
                    rhs.wf(),
                    self.spec_shape().0 == rhs.spec_shape().1,
                    out_rows == self.spec_shape().1,
                    out_cols == rhs.spec_shape().0,
                    0 <= j < out_rows,
                    0 <= i <= out_cols,
                    row@.len() == i,
                    forall|l: int| #![trigger dot_chk(self@[j as int], col_of(rhs@, l))]
                        0 <= l < i ==> dot_chk(self@[j as int], col_of(rhs@, l)) is Ok,
                    forall|l: int| #![trigger row@[l]]
                        0 <= l < i ==> row@[l] == dot_int(self@[j as int], col_of(rhs@, l)),
                decreases out_cols - i,
            {
                let c = rhs.col_vec(i);
                proof {
                    assert(self@[j as int] == self.vec@[j as int]@);
                }
                match self.vec[j].dot(&c) {
                    Ok(v) => {
                        proof {
                            crate::vector::lemma_dot_chk_prefix_exact(
                                self@[j as int],
                                col_of(rhs@, i as int),
                                self@[j as int].len() as int,
                            );
                        }
                        row.push(v);
                    },
                    Err(e) => {
                        proof {
                            let jj = j as int;
                            let ii = i as int;
                            assert(dot_chk(self@[jj], col_of(rhs@, ii)) is Err);
                            assert(!(forall|k: int, l: int|
                                #![trigger dot_chk(self@[k], col_of(rhs@, l))]
                                0 <= k < self.spec_shape().1 && 0 <= l < rhs.spec_shape().0
                                    ==> dot_chk(self@[k], col_of(rhs@, l)) is Ok));
                        }
                        return Err(LinAlgError::Overflow);
                    },
                }
                i += 1;
            }
            let ghost rowg = row@;
            let ghost bufg = buf@;
            let rv = Vector::from_vec(row);
            buf.push(rv);
            proof {
                assert(buf@[j as int]@ == rowg);
                assert forall|k: int, l: int| #![trigger dot_chk(self@[k], col_of(rhs@, l))]
                    0 <= k < j + 1 && 0 <= l < out_cols implies dot_chk(
                    self@[k],
                    col_of(rhs@, l),
                ) is Ok by {
                    if k < j as int {
                        assert(dot_chk(self@[k], col_of(rhs@, l)) is Ok);
                    }
                }
                assert forall|k: int, l: int| #![trigger buf@[k]@[l]]
                    0 <= k < j + 1 && 0 <= l < out_cols implies buf@[k]@[l] == dot_int(
                    self@[k],
                    col_of(rhs@, l),
                ) by {
                    if k == j as int {
                        assert(buf@[k]@ == rowg);
                        assert(rowg[l] == dot_int(self@[k], col_of(rhs@, l)));
                    } else {
                        assert(buf@[k] == bufg[k]);
                        assert(bufg[k]@[l] == dot_int(self@[k], col_of(rhs@, l)));
                    }
                }
            }
            j += 1;
        }
        Ok(Matrix { vec: buf, shape: (out_cols, out_rows) })
    }

    /// Multiplies by `rhs` in place.
    pub fn mul_assign(&mut self, rhs: &Matrix) -> (r: Result<(), LinAlgError>)
        requires
            old(self).wf(),
            rhs.wf(),
        ensures
            r is Err ==> *final(self) == *old(self),
            old(self).spec_shape().0 != rhs.spec_shape().1 ==> r == Err::<(), LinAlgError>(
                LinAlgError::ShapeMismatch,
            ),
            old(self).spec_shape().0 == rhs.spec_shape().1 && (forall|j: int, i: int|
                #![trigger dot_chk(old(self)@[j], col_of(rhs@, i))]
                0 <= j < old(self).spec_shape().1 && 0 <= i < rhs.spec_shape().0 ==> dot_chk(
                    old(self)@[j],
                    col_of(rhs@, i),
                ) is Ok) ==> r is Ok,
            old(self).spec_shape().0 == rhs.spec_shape().1 && !(forall|j: int, i: int|
                #![trigger dot_chk(old(self)@[j], col_of(rhs@, i))]
                0 <= j < old(self).spec_shape().1 && 0 <= i < rhs.spec_shape().0 ==> dot_chk(
                    old(self)@[j],
                    col_of(rhs@, i),
                ) is Ok) ==> r == Err::<(), LinAlgError>(LinAlgError::Overflow),
            r is Ok ==> (final(self).wf() && final(self).spec_shape().0 == rhs.spec_shape().0
                && final(self).spec_shape().1 == old(self).spec_shape().1 && old(self).spec_shape().0 == rhs.spec_shape().1 && forall|j: int, i: int|
                #![trigger final(self)@[j][i]]
                0 <= j < old(self).spec_shape().1 && 0 <= i < rhs.spec_shape().0 ==> final(self)@[j][i] == dot_int(old(self)@[j], col_of(rhs@, i))),
    {
        match self.mul(rhs) {
            Ok(m) => {
                *self = m;
                Ok(())
            },
            Err(e) => Err(e),
        }
    }

    /// The sums of every row and of every column, as two plain buffers;
    /// each sum is accumulated from the left with exact range checking.
    pub fn sum(&self) -> (r: Result<(Vec<i64>, Vec<i64>), LinAlgError>)
        requires
            self.wf(),
        ensures
            ((forall|j: int| 0 <= j < self@.len() ==> sum_chk(#[trigger] self@[j]) is Ok) && (
            forall|x: int|
                #![trigger col_of(self@, x)]
                0 <= x < self.spec_shape().0 ==> sum_chk(col_of(self@, x)) is Ok)) <==> r is Ok,
            r matches Ok(p) ==> (p.0@.len() == self@.len() && (forall|j: int|
                0 <= j < self@.len() ==> p.0@[j] == sum_int(#[trigger] self@[j])) && p.1@.len()
                == self.spec_shape().0 && (forall|x: int|
                #![trigger p.1@[x]]
                0 <= x < self.spec_shape().0 ==> p.1@[x] == sum_int(col_of(self@, x)))),
            r is Err ==> r == Err::<(Vec<i64>, Vec<i64>), LinAlgError>(LinAlgError::Overflow),
    {
        let rows = self.shape.1;
        let cols = self.shape.0;
        let mut row_sum: Vec<i64> = Vec::new();
        let mut j: usize = 0;
        while j < rows
            invariant
                self.wf(),
                rows == self.spec_shape().1,
                cols == self.spec_shape().0,
                0 <= j <= rows,
                row_sum@.len() == j,
                forall|k: int| 0 <= k < j ==> sum_chk(#[trigger] self@[k]) is Ok,
                forall|k: int| 0 <= k < j ==> row_sum@[k] == sum_int(#[trigger] self@[k]),
            decreases rows - j,
        {
            proof {
                assert(self@[j as int] == self.vec@[j as int]@);
            }
            match self.vec[j].sum() {
                Ok(v) => row_sum.push(v),
                Err(e) => {
                    return Err(LinAlgError::Overflow);
                },
            }
            j += 1;
        }
        let mut col_sum: Vec<i64> = Vec::new();
        let mut x: usize = 0;
        while x < cols
            invariant
                self.wf(),
                rows == self.spec_shape().1,
                cols == self.spec_shape().0,
                0 <= x <= cols,
                col_sum@.len() == x,
                forall|k: int| 0 <= k < rows ==> sum_chk(#[trigger] self@[k]) is Ok,
                forall|k: int| 0 <= k < rows ==> row_sum@[k] == sum_int(#[trigger] self@[k]),
                row_sum@.len() == rows,
                forall|l: int| #![trigger col_of(self@, l)]
                    0 <= l < x ==> sum_chk(col_of(self@, l)) is Ok,
                forall|l: int| #![trigger col_sum@[l]]
                    0 <= l < x ==> col_sum@[l] == sum_int(col_of(self@, l)),
            decreases cols - x,
        {
            let c = self.col_vec(x);
            match c.sum() {
                Ok(v) => col_sum.push(v),
                Err(e) => {
                    return Err(LinAlgError::Overflow);
                },
            }
            x += 1;
        }
        Ok((row_sum, col_sum))
    }

    /// The largest element; a matrix without elements has none.
    pub fn max(&self) -> (r: Result<i64, LinAlgError>)
        requires
            self.wf(),
        ensures
            self.spec_shape().0 == 0 || self.spec_shape().1 == 0 ==> r == Err::<i64, LinAlgError>(
                LinAlgError::EmptyVector,
            ),
            self.spec_shape().0 > 0 && self.spec_shape().1 > 0 ==> (r matches Ok(m) && m == mat_max(
                self@,
            ) && (exists|j: int, i: int|
                0 <= j < self@.len() && 0 <= i < self@[j].len() && self@[j][i] == m) && (forall|
                j: int,
                i: int,
            |
                #![trigger self@[j][i]]
                0 <= j < self@.len() && 0 <= i < self@[j].len() ==> self@[j][i] <= m)),
    {
        if self.shape.0 == 0 || self.shape.1 == 0 {
            return Err(LinAlgError::EmptyVector);
        }
        let rows = self.shape.1;
        proof {
            assert(self@[0] == self.vec@[0]@);
        }
        let mut m: i64 = match self.vec[0].max() {
            Ok(v) => v,
            Err(e) => {
                proof {
                    assert(false);
                }
                return Err(LinAlgError::EmptyVector);
            },
        };
        let mut j: usize = 1;
        while j < rows
            invariant
                self.wf(),
                rows == self.spec_shape().1,
                self.spec_shape().0 > 0,
                1 <= j <= rows,
                m == mat_max(self@.take(j as int)),
            decreases rows - j,
        {
            proof {
                assert(self@[j as int] == self.vec@[j as int]@);
                let t = self@.take(j as int + 1);
                assert(t.drop_last() =~= self@.take(j as int));
                assert(t.last() == self@[j as int]);
            }
            match self.vec[j].max() {
                Ok(v) => {
                    if v > m {
                        m = v;
                    }
                },
                Err(e) => {
                    proof {
                        assert(false);
                    }
                    return Err(LinAlgError::EmptyVector);
                },
            }
            j += 1;
        }
        proof {
            assert(self@.take(rows as int) =~= self@);
            lemma_mat_max_props(self@);
        }
        Ok(m)
    }

    /// The smallest element; a matrix without elements has none.
    pub fn min(&self) -> (r: Result<i64, LinAlgError>)
        requires
            self.wf(),
        ensures
            self.spec_shape().0 == 0 || self.spec_shape().1 == 0 ==> r == Err::<i64, LinAlgError>(
                LinAlgError::EmptyVector,
            ),
            self.spec_shape().0 > 0 && self.spec_shape().1 > 0 ==> (r matches Ok(m) && m == mat_min(
                self@,
            ) && (exists|j: int, i: int|
                0 <= j < self@.len() && 0 <= i < self@[j].len() && self@[j][i] == m) && (forall|
                j: int,
                i: int,
            |
                #![trigger self@[j][i]]
                0 <= j < self@.len() && 0 <= i < self@[j].len() ==> m <= self@[j][i])),
    {
        if self.shape.0 == 0 || self.shape.1 == 0 {
            return Err(LinAlgError::EmptyVector);
        }
        let rows = self.shape.1;
        proof {
            assert(self@[0] == self.vec@[0]@);
        }
        let mut m: i64 = match self.vec[0].min() {
            Ok(v) => v,
            Err(e) => {
                proof {
                    assert(false);
                }
                return Err(LinAlgError::EmptyVector);
            },
        };
        let mut j: usize = 1;
        while j < rows
            invariant
                self.wf(),
                rows == self.spec_shape().1,
                self.spec_shape().0 > 0,
                1 <= j <= rows,
                m == mat_min(self@.take(j as int)),
            decreases rows - j,
        {
            proof {
                assert(self@[j as int] == self.vec@[j as int]@);
                let t = self@.take(j as int + 1);
                assert(t.drop_last() =~= self@.take(j as int));
                assert(t.last() == self@[j as int]);
            }
            match self.vec[j].min() {
                Ok(v) => {
                    if v < m {
                        m = v;
                    }
                },
                Err(e) => {
                    proof {
                        assert(false);
                    }
                    return Err(LinAlgError::EmptyVector);
                },
            }
            j += 1;
        }
        proof {
            assert(self@.take(rows as int) =~= self@);
            lemma_mat_min_props(self@);
        }
        Ok(m)
    }

    /// The determinant grid built from this matrix's entries.
    pub fn get_determinant(&self) -> (r: Result<Determinant, LinAlgError>)
        requires
            self.wf(),
        ensures
            self@.len() == 0 || self.spec_shape().0 == self.spec_shape().1 ==> (r matches Ok(d)
                && d.wf() && d@ == scalar_grid(self@)),
            self@.len() > 0 && self.spec_shape().0 != self.spec_shape().1 ==> r == Err::<
                Determinant,
                LinAlgError,
            >(LinAlgError::NonSquareDeterminant),
    {
        match Determinant::from_matrix(self) {
            Ok(d) => {
                proof {
                    if self@.len() == 0 || self.spec_shape().0 == self.spec_shape().1 {
                        let sg = scalar_grid(self@);
                        assert(d@.len() == sg.len());
                        assert forall|j: int| 0 <= j < d@.len() implies d@[j] =~= sg[j] by {
                            assert(d@[j].len() == d@.len());
                            assert(sg[j] == self@[j].map_values(
                                |x: i64| SpecNum::Scalar(x as int),
                            ));
                            assert forall|i: int| 0 <= i < d@[j].len() implies d@[j][i]
                                == sg[j][i] by {
                                assert(d@[j][i] == SpecNum::Scalar(self@[j][i] as int));
                            }
                        }
                        assert(d@ =~= sg);
                    }
                }
                Ok(d)
            },
            Err(e) => Err(e),
        }
    }

    /// The determinant of a square matrix, evaluated by recursive cofactor
    /// expansion with exact checked arithmetic.
    pub fn det(&self) -> (r: Result<i64, LinAlgError>)
        requires
            self.wf(),
        ensures
            self.spec_shape().0 != self.spec_shape().1 ==> r == Err::<i64, LinAlgError>(
                LinAlgError::NonSquareMatrix,
            ),
            self.spec_shape().0 == self.spec_shape().1 ==> (match eval_grid(scalar_grid(self@)) {
                Ok(v) => r matches Ok(x) && v == SpecNum::Scalar(x as int),
                Err(e) => r == Err::<i64, LinAlgError>(e),
            }),
    {
        if self.shape.0 != self.shape.1 {
            return Err(LinAlgError::NonSquareMatrix);
        }
        let d = match Determinant::from_matrix(self) {
            Ok(d) => d,
            Err(e) => {
                proof {
                    assert(false);
                }
                return Err(e);
            },
        };
        proof {
            let sg = scalar_grid(self@);
            assert(d@.len() == sg.len());
            assert forall|j: int| 0 <= j < d@.len() implies d@[j] =~= sg[j] by {
                assert(d@[j].len() == d@.len());
                assert(sg[j] == self@[j].map_values(|x: i64| SpecNum::Scalar(x as int)));
                assert forall|i: int| 0 <= i < d@[j].len() implies d@[j][i] == sg[j][i] by {
                    assert(d@[j][i] == SpecNum::Scalar(self@[j][i] as int));
                }
            }
            assert(d@ =~= sg);
            assert(all_scalar(d@));
            lemma_scalar_eval(d@);
        }
        match d.cal() {
            Ok(v) => match v {
                DeterNum::Scalar(x) => Ok(x),
                DeterNum::VectorValue(_w) => {
                    proof {
                        assert(false);
                    }
                    Err(LinAlgError::EntryTypeMismatch)
                },
            },
            Err(e) => Err(e),
        }
    }

    /// Transposes the matrix in place.
    pub fn t_assign(&mut self)
        requires
            old(self).wf(),
        ensures
            final(self).wf(),
            final(self).spec_shape().0 == old(self).spec_shape().1,
            final(self).spec_shape().1 == old(self).spec_shape().0,
            forall|i: int, j: int|
                0 <= i < old(self).spec_shape().0 && 0 <= j < old(self).spec_shape().1
                    ==> final(self)@[i][j] == old(self)@[j][i],
    {
        let r = self.t();
        *self = r;
    }
}

} // verus!
