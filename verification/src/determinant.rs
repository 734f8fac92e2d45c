//! The determinant engine: a square grid of entries that are either
//! scalars or vectors, evaluated by recursive cofactor expansion with
//! exact checked arithmetic.

use vstd::prelude::*;

use crate::errors::LinAlgError;
use crate::vector::{fits, ints, tdiv, Vector};

verus! {

/// The mathematical value of one determinant entry: an exact integer
/// scalar, or a vector of exact integers.
pub enum SpecNum {
    Scalar(int),
    VectorValue(Seq<int>),
}

/// Whether every element of the sequence is representable as an `i64`.
pub open spec fn seq_fits(s: Seq<int>) -> bool {
    forall|i: int| 0 <= i < s.len() ==> fits(#[trigger] s[i])
}

/// The checked elementwise sum of two equal-length integer sequences.
pub open spec fn seq_add_chk(u: Seq<int>, v: Seq<int>) -> Result<Seq<int>, LinAlgError> {
    let w = Seq::new(u.len(), |i: int| u[i] + v[i]);
    if seq_fits(w) {
        Ok(w)
    } else {
        Err(LinAlgError::Overflow)
    }
}

/// The checked elementwise difference of two equal-length integer
/// sequences.
pub open spec fn seq_sub_chk(u: Seq<int>, v: Seq<int>) -> Result<Seq<int>, LinAlgError> {
    let w = Seq::new(u.len(), |i: int| u[i] - v[i]);
    if seq_fits(w) {
        Ok(w)
    } else {
        Err(LinAlgError::Overflow)
    }
}

/// The checked scaling of an integer sequence by a scalar.
pub open spec fn seq_scale_chk(x: int, v: Seq<int>) -> Result<Seq<int>, LinAlgError> {
    let w = Seq::new(v.len(), |i: int| v[i] * x);
    if seq_fits(w) {
        Ok(w)
    } else {
        Err(LinAlgError::Overflow)
    }
}

/// The checked dot product of the first `k` positions of two integer
/// sequences, accumulated from the left: every elementwise product and
/// every partial sum must be representable.
pub open spec fn dot_chk_int(u: Seq<int>, v: Seq<int>, k: int) -> Result<int, LinAlgError>
    decreases k,
{
    if k <= 0 {
        Ok(0)
    } else {
        match dot_chk_int(u, v, k - 1) {
            Err(e) => Err(e),
            Ok(acc) => {
                let p = u[k - 1] * v[k - 1];
                if !fits(p) {
                    Err(LinAlgError::Overflow)
                } else if !fits(acc + p) {
                    Err(LinAlgError::Overflow)
                } else {
                    Ok(acc + p)
                }
            },
        }
    }
}

/// The checked dot product over machine integers computes the same values
/// as the checked dot product over their exact counterparts.
pub proof fn lemma_dot_chk_lift(a: Seq<i64>, b: Seq<i64>, k: int)
    requires
        k <= a.len(),
        k <= b.len(),
    ensures
        dot_chk_int(ints(a), ints(b), k) == match crate::vector::dot_chk_prefix(a, b, k) {
            Ok(v) => Ok::<int, LinAlgError>(v as int),
            Err(e) => Err::<int, LinAlgError>(e),
        },
    decreases k,
{
    if k > 0 {
        lemma_dot_chk_lift(a, b, k - 1);
    }
}

/// The checked sum of two entries: scalars add to a scalar, vectors of
/// equal length add elementwise, and mixed operands are rejected.
pub open spec fn num_add_chk(a: SpecNum, b: SpecNum) -> Result<SpecNum, LinAlgError> {
    match (a, b) {
        (SpecNum::Scalar(x), SpecNum::Scalar(y)) => if fits(x + y) {
            Ok(SpecNum::Scalar(x + y))
        } else {
            Err(LinAlgError::Overflow)
        },
        (SpecNum::VectorValue(u), SpecNum::VectorValue(v)) => if u.len() != v.len() {
            Err(LinAlgError::ShapeMismatch)
        } else {
            match seq_add_chk(u, v) {
                Ok(w) => Ok(SpecNum::VectorValue(w)),
                Err(e) => Err(e),
            }
        },
        _ => Err(LinAlgError::EntryTypeMismatch),
    }
}

/// The checked difference of two entries, under the same rules as the sum.
pub open spec fn num_sub_chk(a: SpecNum, b: SpecNum) -> Result<SpecNum, LinAlgError> {
    match (a, b) {
        (SpecNum::Scalar(x), SpecNum::Scalar(y)) => if fits(x - y) {
            Ok(SpecNum::Scalar(x - y))
        } else {
            Err(LinAlgError::Overflow)
        },
        (SpecNum::VectorValue(u), SpecNum::VectorValue(v)) => if u.len() != v.len() {
            Err(LinAlgError::ShapeMismatch)
        } else {
            match seq_sub_chk(u, v) {
                Ok(w) => Ok(SpecNum::VectorValue(w)),
                Err(e) => Err(e),
            }
        },
        _ => Err(LinAlgError::EntryTypeMismatch),
    }
}

/// The checked product of two entries: scalars multiply to a scalar, two
/// vectors form their dot product, and a scalar next to a vector scales
/// the vector.
pub open spec fn num_mul_chk(a: SpecNum, b: SpecNum) -> Result<SpecNum, LinAlgError> {
    match (a, b) {
        (SpecNum::Scalar(x), SpecNum::Scalar(y)) => if fits(x * y) {
            Ok(SpecNum::Scalar(x * y))
        } else {
            Err(LinAlgError::Overflow)
        },
        (SpecNum::VectorValue(u), SpecNum::VectorValue(v)) => if u.len() != v.len() {
            Err(LinAlgError::ShapeMismatch)
        } else {
            match dot_chk_int(u, v, u.len() as int) {
                Ok(d) => Ok(SpecNum::Scalar(d)),
                Err(e) => Err(e),
            }
        },
        (SpecNum::Scalar(x), SpecNum::VectorValue(v)) => match seq_scale_chk(x, v) {
            Ok(w) => Ok(SpecNum::VectorValue(w)),
            Err(e) => Err(e),
        },
        (SpecNum::VectorValue(u), SpecNum::Scalar(y)) => match seq_scale_chk(y, u) {
            Ok(w) => Ok(SpecNum::VectorValue(w)),
            Err(e) => Err(e),
        },
    }
}

/// The checked quotient of two entries: only scalar by non-zero scalar is
/// defined, truncating toward zero.
pub open spec fn num_div_chk(a: SpecNum, b: SpecNum) -> Result<SpecNum, LinAlgError> {
    match (a, b) {
        (SpecNum::Scalar(x), SpecNum::Scalar(y)) => if y == 0 {
            Err(LinAlgError::DivisionByZero)
        } else if !fits(tdiv(x, y)) {
            Err(LinAlgError::Overflow)
        } else {
            Ok(SpecNum::Scalar(tdiv(x, y)))
        },
        _ => Err(LinAlgError::EntryTypeMismatch),
    }
}

/// A row with the entry at offset `c` deleted.
pub open spec fn row_minor(row: Seq<SpecNum>, c: int) -> Seq<SpecNum> {
    Seq::new((row.len() - 1) as nat, |k: int| if k < c {
        row[k]
    } else {
        row[k + 1]
    })
}

/// The minor of a grid: the grid with row `0` and column `c` deleted.
pub open spec fn minor(g: Seq<Seq<SpecNum>>, c: int) -> Seq<Seq<SpecNum>> {
    Seq::new((g.len() - 1) as nat, |r: int| row_minor(g[r + 1], c))
}

/// Whether a grid is square: every row is exactly as long as the grid is
/// tall.
pub open spec fn is_square(g: Seq<Seq<SpecNum>>) -> bool {
    forall|j: int| 0 <= j < g.len() ==> (#[trigger] g[j]).len() == g.len()
}

/// The entries of a term sequence at even offsets, in order.
pub open spec fn evens(ts: Seq<SpecNum>) -> Seq<SpecNum> {
    Seq::new(((ts.len() + 1) / 2) as nat, |k: int| ts[2 * k])
}

/// The entries of a term sequence at odd offsets, in order.
pub open spec fn odds(ts: Seq<SpecNum>) -> Seq<SpecNum> {
    Seq::new((ts.len() / 2) as nat, |k: int| ts[2 * k + 1])
}

/// The left-to-right checked fold of a non-empty bucket of terms under
/// entry addition, starting from the bucket's first element.
pub open spec fn fold_add(ts: Seq<SpecNum>) -> Result<SpecNum, LinAlgError>
    recommends
        ts.len() > 0,
    decreases ts.len(),
{
    if ts.len() <= 1 {
        Ok(ts[0])
    } else {
        match fold_add(ts.drop_last()) {
            Err(e) => Err(e),
            Ok(acc) => num_add_chk(acc, ts.last()),
        }
    }
}

/// The checked value of a square grid of entries under recursive cofactor
/// expansion along the first row: the empty grid is scalar zero, a single
/// entry is itself, a two-by-two grid uses the closed form, and a larger
/// grid expands into signed products of first-row entries with their
/// minors, summed into an even and an odd bucket whose folds are finally
/// subtracted.
pub open spec fn eval_grid(g: Seq<Seq<SpecNum>>) -> Result<SpecNum, LinAlgError>
    decreases g.len(), 2int, 0int,
{
    let n = g.len() as int;
    if n == 0 {
        Ok(SpecNum::Scalar(0))
    } else if n == 1 {
        Ok(g[0][0])
    } else if n == 2 {
        match num_mul_chk(g[0][0], g[1][1]) {
            Err(e) => Err(e),
            Ok(p1) => match num_mul_chk(g[0][1], g[1][0]) {
                Err(e) => Err(e),
                Ok(p2) => num_sub_chk(p1, p2),
            },
        }
    } else {
        laplace_expand(g)
    }
}

/// The general expansion path: all first-row terms in column order, the
/// even and odd buckets folded, and the two folds subtracted.
pub open spec fn laplace_expand(g: Seq<Seq<SpecNum>>) -> Result<SpecNum, LinAlgError>
    decreases g.len(), 1int, g.len() + 1,
{
    match eval_terms(g, g.len() as int) {
        Err(e) => Err(e),
        Ok(ts) => match fold_add(evens(ts)) {
            Err(e) => Err(e),
            Ok(sa) => match fold_add(odds(ts)) {
                Err(e) => Err(e),
                Ok(sb) => num_sub_chk(sa, sb),
            },
        },
    }
}

/// The signed-product term of the expansion at column `i`: the checked
/// value of the minor, multiplied by the first-row entry above it.
pub open spec fn term_at(g: Seq<Seq<SpecNum>>, i: int) -> Result<SpecNum, LinAlgError>
    decreases g.len(), 1int, i,
{
    if g.len() > 0 {
        match eval_grid(minor(g, i)) {
            Err(e) => Err(e),
            Ok(m) => num_mul_chk(g[0][i], m),
        }
    } else {
        Err(LinAlgError::NonSquareDeterminant)
    }
}

/// The first `i` expansion terms, in column order, stopping at the first
/// term that fails.
pub open spec fn eval_terms(g: Seq<Seq<SpecNum>>, i: int) -> Result<Seq<SpecNum>, LinAlgError>
    decreases g.len(), 1int, i,
{
    if i <= 0 {
        Ok(Seq::empty())
    } else {
        match eval_terms(g, i - 1) {
            Err(e) => Err(e),
            Ok(ts) => match term_at(g, i - 1) {
                Err(e) => Err(e),
                Ok(t) => Ok(ts.push(t)),
            },
        }
    }
}

/// Appending a term extends the even bucket exactly when the term's
/// offset is even, and the odd bucket exactly when it is odd.
pub proof fn lemma_buckets_push(ts: Seq<SpecNum>, t: SpecNum)
    ensures
        ts.len() % 2 == 0 ==> evens(ts.push(t)) == evens(ts).push(t) && odds(ts.push(t)) == odds(
            ts,
        ),
        ts.len() % 2 == 1 ==> odds(ts.push(t)) == odds(ts).push(t) && evens(ts.push(t)) == evens(
            ts,
        ),
{
    if ts.len() % 2 == 0 {
        assert(evens(ts.push(t)) =~= evens(ts).push(t));
        assert(odds(ts.push(t)) =~= odds(ts));
    } else {
        assert(odds(ts.push(t)) =~= odds(ts).push(t));
        assert(evens(ts.push(t)) =~= evens(ts));
    }
}

/// A term sequence whose prefix evaluation has failed keeps that failure
/// however far the evaluation goes on.
pub proof fn lemma_eval_terms_err(g: Seq<Seq<SpecNum>>, k: int, n: int)
    requires
        eval_terms(g, k) is Err,
        k <= n,
    ensures
        eval_terms(g, n) == eval_terms(g, k),
    decreases n - k,
{
    if n > k {
        lemma_eval_terms_err(g, k, n - 1);
    }
}

/// A fold whose prefix has failed keeps that failure over the whole
/// bucket.
pub proof fn lemma_fold_add_err(s: Seq<SpecNum>, k: int)
    requires
        0 < k <= s.len(),
        fold_add(s.take(k)) is Err,
    ensures
        fold_add(s) == fold_add(s.take(k)),
    decreases s.len() - k,
{
    if k == s.len() {
        assert(s.take(k) =~= s);
    } else {
        assert(s.take(k + 1).drop_last() =~= s.take(k));
        lemma_fold_add_err(s, k + 1);
    }
}

/// Whether every entry of the grid is a scalar.
pub open spec fn all_scalar(g: Seq<Seq<SpecNum>>) -> bool {
    forall|j: int, i: int| #![trigger g[j][i]]
        0 <= j < g.len() && 0 <= i < g[j].len() ==> g[j][i] is Scalar
}

/// Whether every term of the sequence is a scalar.
pub open spec fn all_scalar_seq(ts: Seq<SpecNum>) -> bool {
    forall|l: int| 0 <= l < ts.len() ==> (#[trigger] ts[l]) is Scalar
}

/// The grid of scalar entries that stands for a plain integer matrix.
pub open spec fn scalar_grid(m: Seq<Seq<i64>>) -> Seq<Seq<SpecNum>> {
    m.map_values(|row: Seq<i64>| row.map_values(|x: i64| SpecNum::Scalar(x as int)))
}

/// A minor of a square grid is square, and scalar where the grid is.
pub proof fn lemma_minor_shape(g: Seq<Seq<SpecNum>>, c: int)
    requires
        is_square(g),
        g.len() > 0,
    ensures
        minor(g, c).len() == g.len() - 1,
        is_square(minor(g, c)),
        all_scalar(g) ==> all_scalar(minor(g, c)),
{
    let m = minor(g, c);
    assert forall|j: int| 0 <= j < m.len() implies (#[trigger] m[j]).len() == m.len() by {
        assert(g[j + 1].len() == g.len());
    }
    if all_scalar(g) {
        assert forall|j: int, i: int| #![trigger m[j][i]]
            0 <= j < m.len() && 0 <= i < m[j].len() implies m[j][i] is Scalar by {
            assert(g[j + 1].len() == g.len());
            if i < c {
                assert(m[j][i] == g[j + 1][i]);
            } else {
                assert(m[j][i] == g[j + 1][i + 1]);
            }
        }
    }
}

/// A fold of scalar terms that succeeds yields a scalar.
pub proof fn lemma_fold_add_scalar(ts: Seq<SpecNum>)
    requires
        ts.len() > 0,
        all_scalar_seq(ts),
    ensures
        fold_add(ts) matches Ok(v) ==> v is Scalar,
    decreases ts.len(),
{
    if ts.len() > 1 {
        assert(all_scalar_seq(ts.drop_last())) by {
            assert(forall|l: int|
                0 <= l < ts.len() - 1 ==> #[trigger] ts.drop_last()[l] == ts[l]);
        }
        lemma_fold_add_scalar(ts.drop_last());
    }
}

/// Every expansion term of an all-scalar square grid that evaluates
/// successfully is a scalar.
pub proof fn lemma_scalar_terms(g: Seq<Seq<SpecNum>>, k: int)
    requires
        is_square(g),
        all_scalar(g),
        0 <= k <= g.len(),
    ensures
        eval_terms(g, k) matches Ok(ts) ==> ts.len() == k && all_scalar_seq(ts),
    decreases g.len(), 0int, k,
{
    if k > 0 {
        lemma_scalar_terms(g, k - 1);
        lemma_minor_shape(g, k - 1);
        lemma_scalar_eval(minor(g, k - 1));
        if eval_terms(g, k) is Ok {
            let ts = eval_terms(g, k)->Ok_0;
            let prev = eval_terms(g, k - 1)->Ok_0;
            let t = term_at(g, k - 1)->Ok_0;
            assert(g[0].len() == g.len());
            assert(g[0][k - 1] is Scalar);
            assert(ts == prev.push(t));
            assert(forall|l: int| 0 <= l < k - 1 ==> #[trigger] ts[l] == prev[l]);
            assert(ts[k - 1] == t);
        }
    }
}

/// An all-scalar square grid that evaluates successfully yields a scalar.
pub proof fn lemma_scalar_eval(g: Seq<Seq<SpecNum>>)
    requires
        is_square(g),
        all_scalar(g),
    ensures
        eval_grid(g) matches Ok(v) ==> v is Scalar,
    decreases g.len(), 1int, 0int,
{
    let n = g.len() as int;
    if n == 1 {
        assert(g[0].len() == g.len());
        assert(g[0][0] is Scalar);
    } else if n == 2 {
        assert(g[0].len() == g.len());
        assert(g[1].len() == g.len());
    } else if n >= 3 {
        lemma_scalar_terms(g, n);
        if eval_grid(g) is Ok && eval_terms(g, n) is Ok {
            let ts = eval_terms(g, n)->Ok_0;
            assert(all_scalar_seq(evens(ts))) by {
                assert(forall|l: int|
                    0 <= l < evens(ts).len() ==> #[trigger] evens(ts)[l] == ts[2 * l]);
            }
            assert(all_scalar_seq(odds(ts))) by {
                assert(forall|l: int|
                    0 <= l < odds(ts).len() ==> #[trigger] odds(ts)[l] == ts[2 * l + 1]);
            }
            lemma_fold_add_scalar(evens(ts));
            lemma_fold_add_scalar(odds(ts));
        }
    }
}

/// The length-three standard basis vector with its one at offset `i`.
pub open spec fn basis3(i: int) -> Seq<int> {
    Seq::new(3, |k: int| if k == i {
        1int
    } else {
        0int
    })
}

/// The geometric cross product of two length-three vectors, componentwise.
pub open spec fn cross3(u: Seq<i64>, v: Seq<i64>) -> Seq<int> {
    seq![
        u[1] * v[2] - u[2] * v[1],
        u[2] * v[0] - u[0] * v[2],
        u[0] * v[1] - u[1] * v[0],
    ]
}

/// Whether every intermediate value of the cross-product evaluation stays
/// representable: the six elementwise products, the three signed minors,
/// and the negation of the middle component.
pub open spec fn cross_fits(u: Seq<i64>, v: Seq<i64>) -> bool {
    fits(u[1] * v[2]) && fits(u[2] * v[1]) && fits(u[1] * v[2] - u[2] * v[1]) && fits(u[0] * v[2])
        && fits(u[2] * v[0]) && fits(u[0] * v[2] - u[2] * v[0]) && fits(u[0] * v[1]) && fits(
        u[1] * v[0],
    ) && fits(u[0] * v[1] - u[1] * v[0]) && fits(-(u[0] * v[2] - u[2] * v[0]))
}

/// The cross product is antisymmetric: swapping the operands negates
/// every component of the result.
pub proof fn lemma_cross_antisym(u: Seq<i64>, v: Seq<i64>)
    requires
        u.len() == 3,
        v.len() == 3,
    ensures
        cross3(u, v) == cross3(v, u).map_values(|x: int| -x),
{
    assert(cross3(u, v) =~= cross3(v, u).map_values(|x: int| -x));
}

/// The closed form of a two-by-two scalar grid: its checked value is the
/// difference of the two diagonal products, or `Overflow` where one of
/// the three steps leaves the representable range.
pub proof fn lemma_eval_2x2(g: Seq<Seq<SpecNum>>, a: int, b: int, c: int, d: int)
    requires
        g.len() == 2,
        g[0].len() == 2,
        g[1].len() == 2,
        g[0][0] == SpecNum::Scalar(a),
        g[0][1] == SpecNum::Scalar(b),
        g[1][0] == SpecNum::Scalar(c),
        g[1][1] == SpecNum::Scalar(d),
    ensures
        eval_grid(g) == (if !fits(a * d) {
            Err::<SpecNum, LinAlgError>(LinAlgError::Overflow)
        } else if !fits(b * c) {
            Err::<SpecNum, LinAlgError>(LinAlgError::Overflow)
        } else if !fits(a * d - b * c) {
            Err::<SpecNum, LinAlgError>(LinAlgError::Overflow)
        } else {
            Ok::<SpecNum, LinAlgError>(SpecNum::Scalar(a * d - b * c))
        }),
{
}

/// The determinant of a two-by-two scalar grid `[[a, b], [c, d]]` is
/// exactly `a * d - b * c` whenever the two products and their
/// difference are representable.
pub proof fn lemma_det_2x2_value(g: Seq<Seq<SpecNum>>, a: int, b: int, c: int, d: int)
    requires
        g.len() == 2,
        g[0].len() == 2,
        g[1].len() == 2,
        g[0][0] == SpecNum::Scalar(a),
        g[0][1] == SpecNum::Scalar(b),
        g[1][0] == SpecNum::Scalar(c),
        g[1][1] == SpecNum::Scalar(d),
        fits(a * d),
        fits(b * c),
        fits(a * d - b * c),
    ensures
        eval_grid(g) == Ok::<SpecNum, LinAlgError>(SpecNum::Scalar(a * d - b * c)),
{
    lemma_eval_2x2(g, a, b, c, d);
}

/// On a two-by-two grid the closed form and the general expansion path
/// agree exactly, step for step: expanding along the first row yields the
/// same value, and fails with the same error, as the direct difference of
/// diagonal products.
pub proof fn lemma_laplace_2x2(g: Seq<Seq<SpecNum>>)
    requires
        g.len() == 2,
        is_square(g),
    ensures
        laplace_expand(g) == eval_grid(g),
{
    assert(g[0].len() == 2);
    assert(g[1].len() == 2);
    let g0 = minor(g, 0);
    let g1 = minor(g, 1);
    assert(g0.len() == 1 && g0[0].len() == 1 && g0[0][0] == g[1][1]);
    assert(g1.len() == 1 && g1[0].len() == 1 && g1[0][0] == g[1][0]);
    assert(eval_grid(g0) == Ok::<SpecNum, LinAlgError>(g[1][1]));
    assert(eval_grid(g1) == Ok::<SpecNum, LinAlgError>(g[1][0]));
    assert(eval_terms(g, 0) == Ok::<Seq<SpecNum>, LinAlgError>(Seq::empty()));
    match num_mul_chk(g[0][0], g[1][1]) {
        Err(e) => {
            assert(term_at(g, 0) == Err::<SpecNum, LinAlgError>(e));
            assert(eval_terms(g, 1) == Err::<Seq<SpecNum>, LinAlgError>(e));
            assert(eval_terms(g, 2) == Err::<Seq<SpecNum>, LinAlgError>(e));
        },
        Ok(p1) => {
            assert(term_at(g, 0) == Ok::<SpecNum, LinAlgError>(p1));
            let ts1 = Seq::<SpecNum>::empty().push(p1);
            assert(eval_terms(g, 1) == Ok::<Seq<SpecNum>, LinAlgError>(ts1));
            match num_mul_chk(g[0][1], g[1][0]) {
                Err(e) => {
                    assert(term_at(g, 1) == Err::<SpecNum, LinAlgError>(e));
                    assert(eval_terms(g, 2) == Err::<Seq<SpecNum>, LinAlgError>(e));
                },
                Ok(p2) => {
                    assert(term_at(g, 1) == Ok::<SpecNum, LinAlgError>(p2));
                    let ts = ts1.push(p2);
                    assert(eval_terms(g, 2) == Ok::<Seq<SpecNum>, LinAlgError>(ts));
                    assert(ts.len() == 2 && ts[0] == p1 && ts[1] == p2);
                    assert(evens(ts) =~= seq![p1]);
                    assert(odds(ts) =~= seq![p2]);
                    assert(fold_add(seq![p1]) == Ok::<SpecNum, LinAlgError>(p1));
                    assert(fold_add(seq![p2]) == Ok::<SpecNum, LinAlgError>(p2));
                    assert(laplace_expand(g) == num_sub_chk(p1, p2));
                },
            }
        },
    }
}

/// The checked evaluation of the three-by-three cross-product grid: basis
/// vectors along the first row, the two operand vectors below. Where all
/// intermediates are representable, the value is the cross product of the
/// operands; otherwise the evaluation reports `Overflow`.
pub proof fn lemma_eval_cross_grid(g: Seq<Seq<SpecNum>>, u: Seq<i64>, v: Seq<i64>)
    requires
        u.len() == 3,
        v.len() == 3,
        g.len() == 3,
        is_square(g),
        forall|i: int| 0 <= i < 3 ==> #[trigger] g[0][i] == SpecNum::VectorValue(basis3(i)),
        forall|i: int| 0 <= i < 3 ==> #[trigger] g[1][i] == SpecNum::Scalar(u[i] as int),
        forall|i: int| 0 <= i < 3 ==> #[trigger] g[2][i] == SpecNum::Scalar(v[i] as int),
    ensures
        cross_fits(u, v) ==> eval_grid(g) == Ok::<SpecNum, LinAlgError>(
            SpecNum::VectorValue(cross3(u, v)),
        ),
        !cross_fits(u, v) ==> eval_grid(g) == Err::<SpecNum, LinAlgError>(LinAlgError::Overflow),
{
    assert(g[0].len() == 3);
    assert(g[1].len() == 3);
    assert(g[2].len() == 3);
    let m0 = u[1] * v[2] - u[2] * v[1];
    let m1 = u[0] * v[2] - u[2] * v[0];
    let m2 = u[0] * v[1] - u[1] * v[0];
    let g0 = minor(g, 0);
    let g1 = minor(g, 1);
    let g2 = minor(g, 2);
    assert(g0.len() == 2 && g0[0].len() == 2 && g0[1].len() == 2);
    assert(g0[0][0] == g[1][1] && g0[0][1] == g[1][2] && g0[1][0] == g[2][1] && g0[1][1]
        == g[2][2]);
    lemma_eval_2x2(g0, u[1] as int, u[2] as int, v[1] as int, v[2] as int);
    assert(g1.len() == 2 && g1[0].len() == 2 && g1[1].len() == 2);
    assert(g1[0][0] == g[1][0] && g1[0][1] == g[1][2] && g1[1][0] == g[2][0] && g1[1][1]
        == g[2][2]);
    lemma_eval_2x2(g1, u[0] as int, u[2] as int, v[0] as int, v[2] as int);
    assert(g2.len() == 2 && g2[0].len() == 2 && g2[1].len() == 2);
    assert(g2[0][0] == g[1][0] && g2[0][1] == g[1][1] && g2[1][0] == g[2][0] && g2[1][1]
        == g[2][1]);
    lemma_eval_2x2(g2, u[0] as int, u[1] as int, v[0] as int, v[1] as int);
    assert(eval_terms(g, 0) == Ok::<Seq<SpecNum>, LinAlgError>(Seq::empty()));
    if !fits(u[1] * v[2]) || !fits(u[2] * v[1]) || !fits(m0) {
        assert(eval_grid(g0) == Err::<SpecNum, LinAlgError>(LinAlgError::Overflow));
        assert(term_at(g, 0) == Err::<SpecNum, LinAlgError>(LinAlgError::Overflow));
        assert(eval_terms(g, 1) == Err::<Seq<SpecNum>, LinAlgError>(LinAlgError::Overflow));
        lemma_eval_terms_err(g, 1, 3);
        assert(eval_grid(g) == Err::<SpecNum, LinAlgError>(LinAlgError::Overflow));
    } else {
        assert(eval_grid(g0) == Ok::<SpecNum, LinAlgError>(SpecNum::Scalar(m0)));
        let w0 = Seq::new(3nat, |k: int| basis3(0)[k] * m0);
        assert(w0 =~= seq![m0, 0int, 0int]);
        assert(seq_fits(w0)) by {
            assert(w0[0] == m0 && w0[1] == 0 && w0[2] == 0);
        }
        let t0 = SpecNum::VectorValue(w0);
        assert(num_mul_chk(g[0][0], SpecNum::Scalar(m0)) == Ok::<SpecNum, LinAlgError>(t0));
        assert(term_at(g, 0) == Ok::<SpecNum, LinAlgError>(t0));
        assert(eval_terms(g, 1) == Ok::<Seq<SpecNum>, LinAlgError>(
            Seq::<SpecNum>::empty().push(t0),
        ));
        let ts1 = Seq::<SpecNum>::empty().push(t0);
        if !fits(u[0] * v[2]) || !fits(u[2] * v[0]) || !fits(m1) {
            assert(eval_grid(g1) == Err::<SpecNum, LinAlgError>(LinAlgError::Overflow));
            assert(term_at(g, 1) == Err::<SpecNum, LinAlgError>(LinAlgError::Overflow));
            assert(eval_terms(g, 2) == Err::<Seq<SpecNum>, LinAlgError>(LinAlgError::Overflow));
            lemma_eval_terms_err(g, 2, 3);
            assert(eval_grid(g) == Err::<SpecNum, LinAlgError>(LinAlgError::Overflow));
        } else {
            assert(eval_grid(g1) == Ok::<SpecNum, LinAlgError>(SpecNum::Scalar(m1)));
            let w1 = Seq::new(3nat, |k: int| basis3(1)[k] * m1);
            assert(w1 =~= seq![0int, m1, 0int]);
            assert(seq_fits(w1)) by {
                assert(w1[0] == 0 && w1[1] == m1 && w1[2] == 0);
            }
            let t1 = SpecNum::VectorValue(w1);
            assert(num_mul_chk(g[0][1], SpecNum::Scalar(m1)) == Ok::<SpecNum, LinAlgError>(t1));
            assert(term_at(g, 1) == Ok::<SpecNum, LinAlgError>(t1));
            assert(eval_terms(g, 2) == Ok::<Seq<SpecNum>, LinAlgError>(ts1.push(t1)));
            let ts2 = ts1.push(t1);
            if !fits(u[0] * v[1]) || !fits(u[1] * v[0]) || !fits(m2) {
                assert(eval_grid(g2) == Err::<SpecNum, LinAlgError>(LinAlgError::Overflow));
                assert(term_at(g, 2) == Err::<SpecNum, LinAlgError>(LinAlgError::Overflow));
                assert(eval_terms(g, 3) == Err::<Seq<SpecNum>, LinAlgError>(
                    LinAlgError::Overflow,
                ));
                assert(eval_grid(g) == Err::<SpecNum, LinAlgError>(LinAlgError::Overflow));
            } else {
                assert(eval_grid(g2) == Ok::<SpecNum, LinAlgError>(SpecNum::Scalar(m2)));
                let w2 = Seq::new(3nat, |k: int| basis3(2)[k] * m2);
                assert(w2 =~= seq![0int, 0int, m2]);
                assert(seq_fits(w2)) by {
                    assert(w2[0] == 0 && w2[1] == 0 && w2[2] == m2);
                }
                let t2 = SpecNum::VectorValue(w2);
                assert(num_mul_chk(g[0][2], SpecNum::Scalar(m2)) == Ok::<SpecNum, LinAlgError>(
                    t2,
                ));
                assert(term_at(g, 2) == Ok::<SpecNum, LinAlgError>(t2));
                assert(eval_terms(g, 3) == Ok::<Seq<SpecNum>, LinAlgError>(ts2.push(t2)));
                let ts = ts2.push(t2);
                assert(ts.len() == 3);
                assert(ts[0] == t0 && ts[1] == t1 && ts[2] == t2);
                assert(evens(ts) =~= seq![t0, t2]);
                assert(odds(ts) =~= seq![t1]);
                assert(seq![t0, t2].drop_last() =~= seq![t0]);
                assert(fold_add(seq![t0]) == Ok::<SpecNum, LinAlgError>(t0));
                let wa = Seq::new(3nat, |k: int| w0[k] + w2[k]);
                assert(wa =~= seq![m0, 0int, m2]);
                assert(seq_fits(wa)) by {
                    assert(wa[0] == m0 && wa[1] == 0 && wa[2] == m2);
                }
                let sa = SpecNum::VectorValue(wa);
                assert(num_add_chk(t0, t2) == Ok::<SpecNum, LinAlgError>(sa));
                assert(fold_add(seq![t0, t2]) == Ok::<SpecNum, LinAlgError>(sa));
                assert(fold_add(odds(ts)) == Ok::<SpecNum, LinAlgError>(t1));
                let wr = Seq::new(3nat, |k: int| wa[k] - w1[k]);
                assert(wr =~= cross3(u, v));
                if !fits(-(u[0] * v[2] - u[2] * v[0])) {
                    assert(!fits(wr[1]));
                    assert(!seq_fits(wr));
                    assert(num_sub_chk(sa, t1) == Err::<SpecNum, LinAlgError>(
                        LinAlgError::Overflow,
                    ));
                    assert(eval_grid(g) == Err::<SpecNum, LinAlgError>(LinAlgError::Overflow));
                } else {
                    assert(seq_fits(wr)) by {
                        assert(wr[0] == m0 && wr[1] == -m1 && wr[2] == m2);
                    }
                    assert(num_sub_chk(sa, t1) == Ok::<SpecNum, LinAlgError>(
                        SpecNum::VectorValue(wr),
                    ));
                    assert(eval_grid(g) == Ok::<SpecNum, LinAlgError>(
                        SpecNum::VectorValue(cross3(u, v)),
                    ));
                }
            }
        }
    }
}

/// A fold over terms that are all scalar zero yields scalar zero.
pub proof fn lemma_fold_zero(ts: Seq<SpecNum>)
    requires
        ts.len() >= 1,
        forall|l: int| 0 <= l < ts.len() ==> #[trigger] ts[l] == SpecNum::Scalar(0),
    ensures
        fold_add(ts) == Ok::<SpecNum, LinAlgError>(SpecNum::Scalar(0)),
    decreases ts.len(),
{
    if ts.len() > 1 {
        assert(forall|l: int|
            0 <= l < ts.len() - 1 ==> #[trigger] ts.drop_last()[l] == ts[l]);
        lemma_fold_zero(ts.drop_last());
    }
}

/// Every expansion term of an all-scalar square grid whose last two rows
/// are equal evaluates, where it succeeds, to scalar zero.
proof fn lemma_equal_rows_terms(g: Seq<Seq<SpecNum>>, k: int)
    requires
        is_square(g),
        all_scalar(g),
        g.len() >= 3,
        g[g.len() - 2] == g[g.len() - 1],
        0 <= k <= g.len(),
    ensures
        eval_terms(g, k) matches Ok(ts) ==> ts.len() == k && forall|l: int|
            0 <= l < k ==> #[trigger] ts[l] == SpecNum::Scalar(0),
    decreases g.len(), 0int, k,
{
    if k > 0 {
        lemma_equal_rows_terms(g, k - 1);
        lemma_minor_shape(g, k - 1);
        let m = minor(g, k - 1);
        assert(m[m.len() - 2] == row_minor(g[g.len() - 2], k - 1));
        assert(m[m.len() - 1] == row_minor(g[g.len() - 1], k - 1));
        lemma_equal_last_rows(m);
        if eval_terms(g, k) is Ok {
            let ts = eval_terms(g, k)->Ok_0;
            let prev = eval_terms(g, k - 1)->Ok_0;
            let t = term_at(g, k - 1)->Ok_0;
            assert(eval_grid(m) matches Ok(v) ==> v == SpecNum::Scalar(0));
            assert(g[0].len() == g.len());
            assert(g[0][k - 1] is Scalar);
            assert(t == SpecNum::Scalar(0));
            assert(ts == prev.push(t));
            assert(forall|l: int| 0 <= l < k - 1 ==> #[trigger] ts[l] == prev[l]);
            assert(ts[k - 1] == t);
        }
    }
}

/// An all-scalar square grid whose last two rows are equal has, where it
/// evaluates successfully, the determinant zero.
pub proof fn lemma_equal_last_rows(g: Seq<Seq<SpecNum>>)
    requires
        is_square(g),
        all_scalar(g),
        g.len() >= 2,
        g[g.len() - 2] == g[g.len() - 1],
    ensures
        eval_grid(g) matches Ok(v) ==> v == SpecNum::Scalar(0),
    decreases g.len(), 1int, 0int,
{
    let n = g.len() as int;
    assert(g[0].len() == g.len());
    assert(g[1].len() == g.len());
    if n == 2 {
        assert(g[0] == g[1]);
    } else {
        lemma_equal_rows_terms(g, n);
        if eval_grid(g) is Ok && eval_terms(g, n) is Ok {
            let ts = eval_terms(g, n)->Ok_0;
            assert(forall|l: int|
                0 <= l < evens(ts).len() ==> #[trigger] evens(ts)[l] == ts[2 * l]);
            assert(forall|l: int|
                0 <= l < odds(ts).len() ==> #[trigger] odds(ts)[l] == ts[2 * l + 1]);
            assert(forall|l: int|
                0 <= l < evens(ts).len() ==> #[trigger] evens(ts)[l] == SpecNum::Scalar(0));
            assert(forall|l: int|
                0 <= l < odds(ts).len() ==> #[trigger] odds(ts)[l] == SpecNum::Scalar(0));
            lemma_fold_zero(evens(ts));
            lemma_fold_zero(odds(ts));
        }
    }
}

/// The identity grid of the given size: scalar one on the diagonal and
/// scalar zero elsewhere.
pub open spec fn identity_grid(n: int) -> Seq<Seq<SpecNum>> {
    Seq::new(n as nat, |j: int| Seq::new(n as nat, |i: int| if i == j {
        SpecNum::Scalar(1)
    } else {
        SpecNum::Scalar(0)
    }))
}

/// Whether an entry is a scalar between minus one and one.
pub open spec fn small_scalar(a: SpecNum) -> bool {
    a is Scalar && -1 <= a->Scalar_0 <= 1
}

/// Whether every entry of the grid is scalar zero or scalar one, with at
/// most one one in each row.
pub open spec fn subperm(g: Seq<Seq<SpecNum>>) -> bool {
    (forall|j: int, i: int| #![trigger g[j][i]]
        0 <= j < g.len() && 0 <= i < g[j].len() ==> (g[j][i] == SpecNum::Scalar(0) || g[j][i]
            == SpecNum::Scalar(1))) && (forall|j: int, i1: int, i2: int|
        #![trigger g[j][i1], g[j][i2]]
        0 <= j < g.len() && 0 <= i1 < i2 < g[j].len() && g[j][i1] == SpecNum::Scalar(1)
            ==> g[j][i2] == SpecNum::Scalar(0))
}

/// A minor of a square grid keeps zero-or-one entries with at most one
/// one per row.
pub proof fn lemma_minor_subperm(g: Seq<Seq<SpecNum>>, c: int)
    requires
        is_square(g),
        subperm(g),
        g.len() > 0,
    ensures
        subperm(minor(g, c)),
{
    let m = minor(g, c);
    assert forall|j: int, i: int| #![trigger m[j][i]]
        0 <= j < m.len() && 0 <= i < m[j].len() implies (m[j][i] == SpecNum::Scalar(0) || m[j][i]
        == SpecNum::Scalar(1)) by {
        assert(g[j + 1].len() == g.len());
        if i < c {
            assert(m[j][i] == g[j + 1][i]);
        } else {
            assert(m[j][i] == g[j + 1][i + 1]);
        }
    }
    assert forall|j: int, i1: int, i2: int| #![trigger m[j][i1], m[j][i2]]
        0 <= j < m.len() && 0 <= i1 < i2 < m[j].len() && m[j][i1] == SpecNum::Scalar(1)
        implies m[j][i2] == SpecNum::Scalar(0) by {
        assert(g[j + 1].len() == g.len());
        let o1: int = if i1 < c {
            i1
        } else {
            i1 + 1
        };
        let o2: int = if i2 < c {
            i2
        } else {
            i2 + 1
        };
        assert(m[j][i1] == g[j + 1][o1]);
        assert(m[j][i2] == g[j + 1][o2]);
        assert(o1 < o2);
    }
}

/// A fold of small scalar terms, at most one of them non-zero, stays a
/// small scalar and never overflows; if every term is zero, so is the
/// fold.
pub proof fn lemma_fold_small(ts: Seq<SpecNum>)
    requires
        ts.len() >= 1,
        forall|l: int| 0 <= l < ts.len() ==> small_scalar(#[trigger] ts[l]),
        forall|l1: int, l2: int| #![trigger ts[l1], ts[l2]]
            0 <= l1 < ts.len() && 0 <= l2 < ts.len() && l1 != l2 && ts[l1] != SpecNum::Scalar(0)
                ==> ts[l2] == SpecNum::Scalar(0),
    ensures
        fold_add(ts) is Ok,
        small_scalar(fold_add(ts)->Ok_0),
        (forall|l: int| 0 <= l < ts.len() ==> #[trigger] ts[l] == SpecNum::Scalar(0)) ==> fold_add(
            ts,
        )->Ok_0 == SpecNum::Scalar(0),
    decreases ts.len(),
{
    if ts.len() > 1 {
        let d = ts.drop_last();
        assert(forall|l: int| 0 <= l < d.len() ==> #[trigger] d[l] == ts[l]);
        lemma_fold_small(d);
        let acc = fold_add(d)->Ok_0;
        if ts.last() != SpecNum::Scalar(0) {
            assert(forall|l: int| 0 <= l < d.len() ==> #[trigger] d[l] == SpecNum::Scalar(0));
            assert(acc == SpecNum::Scalar(0));
        }
    }
}

/// A fold whose terms past the first are all zero yields the first term,
/// provided it is a representable scalar.
pub proof fn lemma_fold_first_rest_zero(ts: Seq<SpecNum>)
    requires
        ts.len() >= 1,
        ts[0] is Scalar,
        fits(ts[0]->Scalar_0),
        forall|l: int| 1 <= l < ts.len() ==> #[trigger] ts[l] == SpecNum::Scalar(0),
    ensures
        fold_add(ts) == Ok::<SpecNum, LinAlgError>(ts[0]),
    decreases ts.len(),
{
    if ts.len() > 1 {
        let d = ts.drop_last();
        assert(forall|l: int| 0 <= l < d.len() ==> #[trigger] d[l] == ts[l]);
        lemma_fold_first_rest_zero(d);
    }
}

/// Every expansion term of a square zero-or-one grid with at most one one
/// per row evaluates to a small scalar, zero wherever the first-row entry
/// above it is zero.
proof fn lemma_subperm_terms(g: Seq<Seq<SpecNum>>, k: int)
    requires
        is_square(g),
        subperm(g),
        g.len() >= 3,
        0 <= k <= g.len(),
    ensures
        eval_terms(g, k) is Ok,
        eval_terms(g, k)->Ok_0.len() == k,
        forall|l: int| 0 <= l < k ==> small_scalar(#[trigger] eval_terms(g, k)->Ok_0[l]),
        forall|l: int|
            0 <= l < k && g[0][l] == SpecNum::Scalar(0) ==> #[trigger] eval_terms(g, k)->Ok_0[l]
                == SpecNum::Scalar(0),
    decreases g.len(), 0int, k,
{
    if k > 0 {
        lemma_subperm_terms(g, k - 1);
        lemma_minor_shape(g, k - 1);
        lemma_minor_subperm(g, k - 1);
        lemma_subperm_eval(minor(g, k - 1));
        let prev = eval_terms(g, k - 1)->Ok_0;
        let m = eval_grid(minor(g, k - 1))->Ok_0;
        assert(g[0].len() == g.len());
        assert(g[0][k - 1] == SpecNum::Scalar(0) || g[0][k - 1] == SpecNum::Scalar(1));
        let t = term_at(g, k - 1)->Ok_0;
        assert(term_at(g, k - 1) is Ok && small_scalar(t) && (g[0][k - 1] == SpecNum::Scalar(0)
            ==> t == SpecNum::Scalar(0)));
        let ts = eval_terms(g, k)->Ok_0;
        assert(ts == prev.push(t));
        assert(forall|l: int| 0 <= l < k - 1 ==> #[trigger] ts[l] == prev[l]);
        assert(ts[k - 1] == t);
    }
}

/// A square zero-or-one grid with at most one one per row evaluates
/// without failure to a scalar between minus one and one.
pub proof fn lemma_subperm_eval(g: Seq<Seq<SpecNum>>)
    requires
        is_square(g),
        subperm(g),
    ensures
        eval_grid(g) is Ok,
        small_scalar(eval_grid(g)->Ok_0),
    decreases g.len(), 1int, 0int,
{
    let n = g.len() as int;
    if n == 0 {
    } else if n == 1 {
        assert(g[0].len() == g.len());
        assert(g[0][0] == SpecNum::Scalar(0) || g[0][0] == SpecNum::Scalar(1));
    } else if n == 2 {
        assert(g[0].len() == g.len());
        assert(g[1].len() == g.len());
        assert(g[0][0] == SpecNum::Scalar(0) || g[0][0] == SpecNum::Scalar(1));
        assert(g[0][1] == SpecNum::Scalar(0) || g[0][1] == SpecNum::Scalar(1));
        assert(g[1][0] == SpecNum::Scalar(0) || g[1][0] == SpecNum::Scalar(1));
        assert(g[1][1] == SpecNum::Scalar(0) || g[1][1] == SpecNum::Scalar(1));
    } else {
        lemma_subperm_terms(g, n);
        let ts = eval_terms(g, n)->Ok_0;
        assert(g[0].len() == g.len());
        assert forall|l1: int, l2: int| #![trigger ts[l1], ts[l2]]
            0 <= l1 < ts.len() && 0 <= l2 < ts.len() && l1 != l2 && ts[l1] != SpecNum::Scalar(0)
            implies ts[l2] == SpecNum::Scalar(0) by {
            assert(g[0][l1] == SpecNum::Scalar(0) || g[0][l1] == SpecNum::Scalar(1));
            assert(g[0][l2] == SpecNum::Scalar(0) || g[0][l2] == SpecNum::Scalar(1));
            if g[0][l2] == SpecNum::Scalar(1) {
                assert(g[0][l1] == SpecNum::Scalar(0));
            }
        }
        let ev = evens(ts);
        let od = odds(ts);
        assert(forall|l: int| 0 <= l < ev.len() ==> #[trigger] ev[l] == ts[2 * l]);
        assert(forall|l: int| 0 <= l < od.len() ==> #[trigger] od[l] == ts[2 * l + 1]);
        assert(forall|l: int| 0 <= l < ev.len() ==> small_scalar(#[trigger] ev[l]));
        assert(forall|l: int| 0 <= l < od.len() ==> small_scalar(#[trigger] od[l]));
        assert forall|l1: int, l2: int| #![trigger ev[l1], ev[l2]]
            0 <= l1 < ev.len() && 0 <= l2 < ev.len() && l1 != l2 && ev[l1] != SpecNum::Scalar(0)
            implies ev[l2] == SpecNum::Scalar(0) by {
            assert(ev[l1] == ts[2 * l1] && ev[l2] == ts[2 * l2]);
        }
        assert forall|l1: int, l2: int| #![trigger od[l1], od[l2]]
            0 <= l1 < od.len() && 0 <= l2 < od.len() && l1 != l2 && od[l1] != SpecNum::Scalar(0)
            implies od[l2] == SpecNum::Scalar(0) by {
            assert(od[l1] == ts[2 * l1 + 1] && od[l2] == ts[2 * l2 + 1]);
        }
        lemma_fold_small(ev);
        lemma_fold_small(od);
        let sa = fold_add(ev)->Ok_0;
        let sb = fold_add(od)->Ok_0;
        if sa != SpecNum::Scalar(0) && sb != SpecNum::Scalar(0) {
            assert(!(forall|l: int| 0 <= l < ev.len() ==> #[trigger] ev[l] == SpecNum::Scalar(0)));
            assert(!(forall|l: int| 0 <= l < od.len() ==> #[trigger] od[l] == SpecNum::Scalar(0)));
            let la = choose|l: int| 0 <= l < ev.len() && ev[l] != SpecNum::Scalar(0);
            let lb = choose|l: int| 0 <= l < od.len() && od[l] != SpecNum::Scalar(0);
            assert(ts[2 * la] != SpecNum::Scalar(0));
            assert(ts[2 * lb + 1] != SpecNum::Scalar(0));
            assert(false);
        }
    }
}

/// The identity grid is square, with zero-or-one entries and at most one
/// one per row.
pub proof fn lemma_identity_subperm(n: int)
    requires
        n >= 0,
    ensures
        identity_grid(n).len() == n,
        is_square(identity_grid(n)),
        subperm(identity_grid(n)),
        all_scalar(identity_grid(n)),
{
}

/// Deleting the first row and column of the identity grid leaves the
/// identity grid one size smaller.
pub proof fn lemma_identity_minor0(n: int)
    requires
        n >= 1,
    ensures
        minor(identity_grid(n), 0) == identity_grid(n - 1),
{
    let m = minor(identity_grid(n), 0);
    let d = identity_grid(n - 1);
    assert forall|r: int| 0 <= r < m.len() implies m[r] =~= d[r] by {
        assert(identity_grid(n)[r + 1].len() == n);
        assert forall|k: int| 0 <= k < m[r].len() implies m[r][k] == d[r][k] by {
            assert(m[r][k] == identity_grid(n)[r + 1][k + 1]);
        }
    }
    assert(m =~= d);
}

/// The expansion terms of the identity grid: the first is scalar one and
/// all the following are scalar zero.
proof fn lemma_identity_terms(n: int, k: int)
    requires
        n >= 3,
        0 <= k <= n,
    ensures
        eval_terms(identity_grid(n), k) is Ok,
        eval_terms(identity_grid(n), k)->Ok_0.len() == k,
        k >= 1 ==> eval_terms(identity_grid(n), k)->Ok_0[0] == SpecNum::Scalar(1),
        forall|l: int|
            1 <= l < k ==> #[trigger] eval_terms(identity_grid(n), k)->Ok_0[l] == SpecNum::Scalar(
                0,
            ),
    decreases n, 0int, k,
{
    let g = identity_grid(n);
    lemma_identity_subperm(n);
    if k > 0 {
        lemma_identity_terms(n, k - 1);
        let prev = eval_terms(g, k - 1)->Ok_0;
        assert(g[0].len() == n);
        if k - 1 == 0 {
            lemma_identity_minor0(n);
            lemma_det_identity(n - 1);
            assert(eval_grid(minor(g, 0)) == Ok::<SpecNum, LinAlgError>(SpecNum::Scalar(1)));
            assert(g[0][0] == SpecNum::Scalar(1));
            assert(term_at(g, 0) == Ok::<SpecNum, LinAlgError>(SpecNum::Scalar(1)));
        } else {
            lemma_minor_shape(g, k - 1);
            lemma_minor_subperm(g, k - 1);
            lemma_subperm_eval(minor(g, k - 1));
            assert(g[0][k - 1] == SpecNum::Scalar(0));
            let m = eval_grid(minor(g, k - 1))->Ok_0;
            assert(term_at(g, k - 1) == Ok::<SpecNum, LinAlgError>(SpecNum::Scalar(0)));
        }
        let t = term_at(g, k - 1)->Ok_0;
        let ts = eval_terms(g, k)->Ok_0;
        assert(ts == prev.push(t));
        assert(forall|l: int| 0 <= l < k - 1 ==> #[trigger] ts[l] == prev[l]);
        assert(ts[k - 1] == t);
    }
}

/// The determinant of the identity grid of any positive size is one.
/// (The empty grid is separately defined to evaluate to scalar zero.)
pub proof fn lemma_det_identity(n: int)
    requires
        n >= 1,
    ensures
        eval_grid(identity_grid(n)) == Ok::<SpecNum, LinAlgError>(SpecNum::Scalar(1)),
    decreases n, 1int, 0int,
{
    let g = identity_grid(n);
    lemma_identity_subperm(n);
    if n == 1 {
        assert(g[0][0] == SpecNum::Scalar(1));
    } else if n == 2 {
        assert(g[0][0] == SpecNum::Scalar(1));
        assert(g[0][1] == SpecNum::Scalar(0));
        assert(g[1][0] == SpecNum::Scalar(0));
        assert(g[1][1] == SpecNum::Scalar(1));
    } else {
        lemma_identity_terms(n, n);
        let ts = eval_terms(g, n)->Ok_0;
        let ev = evens(ts);
        let od = odds(ts);
        assert(forall|l: int| 0 <= l < ev.len() ==> #[trigger] ev[l] == ts[2 * l]);
        assert(forall|l: int| 0 <= l < od.len() ==> #[trigger] od[l] == ts[2 * l + 1]);
        assert(ev[0] == ts[0]);
        assert(forall|l: int| 1 <= l < ev.len() ==> #[trigger] ev[l] == SpecNum::Scalar(0));
        assert(forall|l: int| 0 <= l < od.len() ==> #[trigger] od[l] == SpecNum::Scalar(0));
        lemma_fold_first_rest_zero(ev);
        lemma_fold_zero(od);
        assert(fold_add(ev) == Ok::<SpecNum, LinAlgError>(SpecNum::Scalar(1)));
        assert(fold_add(od) == Ok::<SpecNum, LinAlgError>(SpecNum::Scalar(0)));
    }
}

/// A square integer grid with ones on the diagonal and zeros elsewhere
/// stands for the identity grid of its size.
pub proof fn lemma_scalar_grid_identity(m: Seq<Seq<i64>>)
    requires
        forall|j: int| 0 <= j < m.len() ==> (#[trigger] m[j]).len() == m.len(),
        forall|j: int, i: int| #![trigger m[j][i]]
            0 <= j < m.len() && 0 <= i < m.len() ==> m[j][i] == (if i == j {
                1i64
            } else {
                0i64
            }),
    ensures
        scalar_grid(m) == identity_grid(m.len() as int),
{
    let sg = scalar_grid(m);
    let idg = identity_grid(m.len() as int);
    assert forall|j: int| 0 <= j < m.len() implies sg[j] == idg[j] by {
        assert(sg[j] == m[j].map_values(|x: i64| SpecNum::Scalar(x as int)));
        assert forall|i: int| 0 <= i < m.len() implies sg[j][i] == idg[j][i] by {
            assert(m[j][i] == (if i == j {
                1i64
            } else {
                0i64
            }));
        }
        assert(sg[j] =~= idg[j]);
    }
    assert(sg =~= idg);
}

/// The result of an entry operation, seen at the specification level.
pub open spec fn res_view(r: Result<DeterNum, LinAlgError>) -> Result<SpecNum, LinAlgError> {
    match r {
        Ok(v) => Ok(v@),
        Err(e) => Err(e),
    }
}

/// One entry of a determinant grid: either an exact scalar or a vector of
/// exact scalars. Arithmetic is defined only for the tag combinations the
/// cofactor expansion needs; the rest are reported as typed errors.
#[derive(Debug, PartialEq)]
pub enum DeterNum {
    Scalar(i64),
    VectorValue(Vector),
}

impl View for DeterNum {
    type V = SpecNum;

    open spec fn view(&self) -> SpecNum {
        match self {
            DeterNum::Scalar(x) => SpecNum::Scalar(*x as int),
            DeterNum::VectorValue(v) => SpecNum::VectorValue(ints(v@)),
        }
    }
}

impl Clone for DeterNum {
    /// An exact copy: the clone holds the same tag and value.
    fn clone(&self) -> (r: Self)
        ensures
            r@ == self@,
    {
        match self {
            DeterNum::Scalar(x) => DeterNum::Scalar(*x),
            DeterNum::VectorValue(v) => DeterNum::VectorValue(v.clone()),
        }
    }
}

impl DeterNum {
    /// The checked sum of two entries.
    pub fn add(self, rhs: DeterNum) -> (r: Result<DeterNum, LinAlgError>)
        ensures
            res_view(r) == num_add_chk(self@, rhs@),
    {
        match (self, rhs) {
            (DeterNum::Scalar(x), DeterNum::Scalar(y)) => match x.checked_add(y) {
                Some(s) => Ok(DeterNum::Scalar(s)),
                None => Err(LinAlgError::Overflow),
            },
            (DeterNum::VectorValue(u), DeterNum::VectorValue(v)) => match u.add(&v) {
                Ok(w) => {
                    proof {
                        let us = ints(u@);
                        let vs = ints(v@);
                        assert(ints(w@) =~= Seq::new(us.len(), |i: int| us[i] + vs[i]));
                        assert(seq_fits(Seq::new(us.len(), |i: int| us[i] + vs[i])));
                    }
                    Ok(DeterNum::VectorValue(w))
                },
                Err(e) => {
                    proof {
                        let us = ints(u@);
                        let vs = ints(v@);
                        if u@.len() == v@.len() {
                            let iw = choose|i: int|
                                0 <= i < u@.len() && !fits(u@[i] + v@[i]);
                            assert(!fits(Seq::new(us.len(), |i: int| us[i] + vs[i])[iw]));
                            assert(!seq_fits(Seq::new(us.len(), |i: int| us[i] + vs[i])));
                        }
                    }
                    Err(e)
                },
            },
            _ => Err(LinAlgError::EntryTypeMismatch),
        }
    }

    /// The checked difference of two entries.
    pub fn sub(self, rhs: DeterNum) -> (r: Result<DeterNum, LinAlgError>)
        ensures
            res_view(r) == num_sub_chk(self@, rhs@),
    {
        match (self, rhs) {
            (DeterNum::Scalar(x), DeterNum::Scalar(y)) => match x.checked_sub(y) {
                Some(s) => Ok(DeterNum::Scalar(s)),
                None => Err(LinAlgError::Overflow),
            },
            (DeterNum::VectorValue(u), DeterNum::VectorValue(v)) => match u.sub(&v) {
                Ok(w) => {
                    proof {
                        let us = ints(u@);
                        let vs = ints(v@);
                        assert(ints(w@) =~= Seq::new(us.len(), |i: int| us[i] - vs[i]));
                        assert(seq_fits(Seq::new(us.len(), |i: int| us[i] - vs[i])));
                    }
                    Ok(DeterNum::VectorValue(w))
                },
                Err(e) => {
                    proof {
                        let us = ints(u@);
                        let vs = ints(v@);
                        if u@.len() == v@.len() {
                            let iw = choose|i: int|
                                0 <= i < u@.len() && !fits(u@[i] - v@[i]);
                            assert(!fits(Seq::new(us.len(), |i: int| us[i] - vs[i])[iw]));
                            assert(!seq_fits(Seq::new(us.len(), |i: int| us[i] - vs[i])));
                        }
                    }
                    Err(e)
                },
            },
            _ => Err(LinAlgError::EntryTypeMismatch),
        }
    }

    /// The checked product of two entries.
    pub fn mul(self, rhs: DeterNum) -> (r: Result<DeterNum, LinAlgError>)
        ensures
            res_view(r) == num_mul_chk(self@, rhs@),
    {
        match (self, rhs) {
            (DeterNum::Scalar(x), DeterNum::Scalar(y)) => match x.checked_mul(y) {
                Some(s) => Ok(DeterNum::Scalar(s)),
                None => Err(LinAlgError::Overflow),
            },
            (DeterNum::VectorValue(u), DeterNum::VectorValue(v)) => {
                proof {
                    if u@.len() == v@.len() {
                        lemma_dot_chk_lift(u@, v@, u@.len() as int);
                    }
                }
                match u.dot(&v) {
                    Ok(d) => Ok(DeterNum::Scalar(d)),
                    Err(e) => Err(e),
                }
            },
            (DeterNum::Scalar(x), DeterNum::VectorValue(v)) => match v.strech(x) {
                Ok(w) => {
                    proof {
                        let vs = ints(v@);
                        assert(ints(w@) =~= Seq::new(vs.len(), |i: int| vs[i] * x));
                        assert(seq_fits(Seq::new(vs.len(), |i: int| vs[i] * x)));
                    }
                    Ok(DeterNum::VectorValue(w))
                },
                Err(e) => {
                    proof {
                        let vs = ints(v@);
                        let iw = choose|i: int| 0 <= i < v@.len() && !fits(v@[i] * x);
                        assert(!fits(Seq::new(vs.len(), |i: int| vs[i] * x)[iw]));
                        assert(!seq_fits(Seq::new(vs.len(), |i: int| vs[i] * x)));
                    }
                    Err(e)
                },
            },
            (DeterNum::VectorValue(u), DeterNum::Scalar(y)) => match u.strech(y) {
                Ok(w) => {
                    proof {
                        let us = ints(u@);
                        assert(ints(w@) =~= Seq::new(us.len(), |i: int| us[i] * y));
                        assert(seq_fits(Seq::new(us.len(), |i: int| us[i] * y)));
                    }
                    Ok(DeterNum::VectorValue(w))
                },
                Err(e) => {
                    proof {
                        let us = ints(u@);
                        let iw = choose|i: int| 0 <= i < u@.len() && !fits(u@[i] * y);
                        assert(!fits(Seq::new(us.len(), |i: int| us[i] * y)[iw]));
                        assert(!seq_fits(Seq::new(us.len(), |i: int| us[i] * y)));
                    }
                    Err(e)
                },
            },
        }
    }

    /// The checked quotient of two entries.
    pub fn div(self, rhs: DeterNum) -> (r: Result<DeterNum, LinAlgError>)
        ensures
            res_view(r) == num_div_chk(self@, rhs@),
    {
        match (self, rhs) {
            (DeterNum::Scalar(x), DeterNum::Scalar(y)) => {
                if y == 0 {
                    return Err(LinAlgError::DivisionByZero);
                }
                match x.checked_div(y) {
                    Some(s) => Ok(DeterNum::Scalar(s)),
                    None => Err(LinAlgError::Overflow),
                }
            },
            _ => Err(LinAlgError::EntryTypeMismatch),
        }
    }
}

/// The grid of entry values held by a buffer of rows.
pub open spec fn grid_view(val: Seq<Vec<DeterNum>>) -> Seq<Seq<SpecNum>> {
    val.map_values(|row: Vec<DeterNum>| row@.map_values(|e: DeterNum| e@))
}

/// A square grid of entries together with its recursive cofactor
/// evaluator. Squareness is checked at construction; a ragged or
/// non-square grid is rejected there and never evaluated.
#[derive(Debug, PartialEq)]
pub struct Determinant {
    val: Vec<Vec<DeterNum>>,
}

impl View for Determinant {
    type V = Seq<Seq<SpecNum>>;

    closed spec fn view(&self) -> Seq<Seq<SpecNum>> {
        grid_view(self.val@)
    }
}

impl Clone for Determinant {
    /// An exact copy: the clone holds the same grid.
    fn clone(&self) -> (r: Self)
        ensures
            r@ == self@,
            self.wf() ==> r.wf(),
    {
        let mut buf: Vec<Vec<DeterNum>> = Vec::new();
        let mut j: usize = 0;
        while j < self.val.len()
            invariant
                0 <= j <= self.val@.len(),
                buf@.len() == j,
                forall|k: int|
                    0 <= k < j ==> (#[trigger] buf@[k])@.map_values(|e: DeterNum| e@)
                        == self.val@[k]@.map_values(|e: DeterNum| e@),
            decreases self.val@.len() - j,
        {
            let row = &self.val[j];
            let mut buf_1: Vec<DeterNum> = Vec::new();
            let mut i: usize = 0;
            while i < row.len()
                invariant
                    0 <= i <= row@.len(),
                    buf_1@.len() == i,
                    forall|k: int| 0 <= k < i ==> (#[trigger] buf_1@[k])@ == row@[k]@,
                decreases row@.len() - i,
            {
                buf_1.push(row[i].clone());
                i += 1;
            }
            proof {
                assert(buf_1@.map_values(|e: DeterNum| e@) =~= row@.map_values(
                    |e: DeterNum| e@,
                ));
            }
            buf.push(buf_1);
            j += 1;
        }
        let r = Determinant { val: buf };
        proof {
            assert(r@ =~= self@);
        }
        r
    }
}

impl Determinant {
    /// Structural soundness: the grid is square.
    pub open spec fn wf(self) -> bool {
        is_square(self@)
    }

    /// A determinant holding exactly the given square grid of scalars.
    pub fn from<const L: usize>(val: [[i64; L]; L]) -> (r: Determinant)
        ensures
            r.wf(),
            r@.len() == L,
            forall|j: int, i: int| #![trigger r@[j][i]]
                0 <= j < L && 0 <= i < L ==> r@[j][i] == SpecNum::Scalar(val@[j]@[i] as int),
    {
        let mut buf: Vec<Vec<DeterNum>> = Vec::new();
        let mut j: usize = 0;
        while j < L
            invariant
                0 <= j <= L,
                buf@.len() == j,
                forall|k: int| 0 <= k < j ==> (#[trigger] buf@[k])@.len() == L,
                forall|k: int, i: int| #![trigger buf@[k]@[i]]
                    0 <= k < j && 0 <= i < L ==> buf@[k]@[i]@ == SpecNum::Scalar(
                        val@[k]@[i] as int,
                    ),
            decreases L - j,
        {
            let mut buf_1: Vec<DeterNum> = Vec::new();
            let mut i: usize = 0;
            while i < L
                invariant
                    0 <= i <= L,
                    j < L,
                    buf_1@.len() == i,
                    forall|k: int|
                        0 <= k < i ==> (#[trigger] buf_1@[k])@ == SpecNum::Scalar(
                            val@[j as int]@[k] as int,
                        ),
                decreases L - i,
            {
                buf_1.push(DeterNum::Scalar(val[j][i]));
                i += 1;
            }
            buf.push(buf_1);
            j += 1;
        }
        let r = Determinant { val: buf };
        proof {
            assert(forall|j: int| 0 <= j < L ==> (#[trigger] r@[j]).len() == L);
        }
        r
    }

    /// A determinant holding exactly the given square grid of scalars.
    pub fn from_i<const L: usize>(val: [[i64; L]; L]) -> (r: Determinant)
        ensures
            r.wf(),
            r@.len() == L,
            forall|j: int, i: int| #![trigger r@[j][i]]
                0 <= j < L && 0 <= i < L ==> r@[j][i] == SpecNum::Scalar(val@[j]@[i] as int),
    {
        Determinant::from(val)
    }

    /// A determinant built from rows of scalars; the grid must be square.
    pub fn from_vec(val: Vec<Vec<i64>>) -> (r: Result<Determinant, LinAlgError>)
        ensures
            (forall|j: int| 0 <= j < val@.len() ==> (#[trigger] val@[j])@.len() == val@.len())
                ==> (r matches Ok(d) && d.wf() && d@.len() == val@.len() && forall|j: int, i: int|
                #![trigger d@[j][i]]
                0 <= j < val@.len() && 0 <= i < val@.len() ==> d@[j][i] == SpecNum::Scalar(
                    val@[j]@[i] as int,
                )),
            !(forall|j: int| 0 <= j < val@.len() ==> (#[trigger] val@[j])@.len() == val@.len())
                ==> r == Err::<Determinant, LinAlgError>(LinAlgError::NonSquareDeterminant),
    {
        let n = val.len();
        let mut buf: Vec<Vec<DeterNum>> = Vec::new();
        let mut j: usize = 0;
        while j < n
            invariant
                n == val@.len(),
                0 <= j <= n,
                buf@.len() == j,
                forall|k: int| 0 <= k < j ==> (#[trigger] val@[k])@.len() == n,
                forall|k: int| 0 <= k < j ==> (#[trigger] buf@[k])@.len() == n,
                forall|k: int, i: int| #![trigger buf@[k]@[i]]
                    0 <= k < j && 0 <= i < n ==> buf@[k]@[i]@ == SpecNum::Scalar(
                        val@[k]@[i] as int,
                    ),
            decreases n - j,
        {
            if val[j].len() != n {
                return Err(LinAlgError::NonSquareDeterminant);
            }
            let row = &val[j];
            let mut buf_1: Vec<DeterNum> = Vec::new();
            let mut i: usize = 0;
            while i < n
                invariant
                    n == val@.len(),
                    j < n,
                    row == val@[j as int],
                    row@.len() == n,
                    0 <= i <= n,
                    buf_1@.len() == i,
                    forall|k: int|
                        0 <= k < i ==> (#[trigger] buf_1@[k])@ == SpecNum::Scalar(
                            val@[j as int]@[k] as int,
                        ),
                decreases n - i,
            {
                buf_1.push(DeterNum::Scalar(row[i]));
                i += 1;
            }
            buf.push(buf_1);
            j += 1;
        }
        let r = Determinant { val: buf };
        proof {
            assert(forall|j: int| 0 <= j < n ==> (#[trigger] r@[j]).len() == n);
        }
        Ok(r)
    }

    /// A determinant built from rows of entries; the grid must be square.
    pub fn from_vec_deter(val: Vec<Vec<DeterNum>>) -> (r: Result<Determinant, LinAlgError>)
        ensures
            (forall|j: int| 0 <= j < val@.len() ==> (#[trigger] val@[j])@.len() == val@.len())
                ==> (r matches Ok(d) && d.wf() && d@ == grid_view(val@)),
            !(forall|j: int| 0 <= j < val@.len() ==> (#[trigger] val@[j])@.len() == val@.len())
                ==> r == Err::<Determinant, LinAlgError>(LinAlgError::NonSquareDeterminant),
    {
        let n = val.len();
        let mut j: usize = 0;
        while j < n
            invariant
                n == val@.len(),
                0 <= j <= n,
                forall|k: int| 0 <= k < j ==> (#[trigger] val@[k])@.len() == n,
            decreases n - j,
        {
            if val[j].len() != n {
                return Err(LinAlgError::NonSquareDeterminant);
            }
            j += 1;
        }
        let r = Determinant { val };
        proof {
            assert(forall|j: int| 0 <= j < n ==> (#[trigger] r@[j]).len() == n);
        }
        Ok(r)
    }

    /// A determinant built from a square matrix's scalar entries.
    pub fn from_matrix(matrix: &crate::matrix::Matrix) -> (r: Result<Determinant, LinAlgError>)
        requires
            matrix.wf(),
        ensures
            matrix@.len() == 0 || matrix.spec_shape().0 == matrix.spec_shape().1 ==> (r matches Ok(
                d,
            ) && d.wf() && d@.len() == matrix@.len() && forall|j: int, i: int|
                #![trigger d@[j][i]]
                0 <= j < matrix@.len() && 0 <= i < matrix@.len() ==> d@[j][i] == SpecNum::Scalar(
                    matrix@[j][i] as int,
                )),
            matrix@.len() > 0 && matrix.spec_shape().0 != matrix.spec_shape().1 ==> r == Err::<
                Determinant,
                LinAlgError,
            >(LinAlgError::NonSquareDeterminant),
    {
        let gv = matrix.get_val();
        proof {
            if matrix@.len() > 0 && matrix.spec_shape().0 != matrix.spec_shape().1 {
                assert(gv@[0]@.len() != gv@.len());
            } else {
                assert(forall|j: int|
                    0 <= j < gv@.len() ==> (#[trigger] gv@[j])@.len() == gv@.len());
            }
        }
        match Determinant::from_vec(gv) {
            Ok(d) => {
                proof {
                    assert forall|j: int, i: int| #![trigger d@[j][i]]
                        0 <= j < matrix@.len() && 0 <= i < matrix@.len() implies d@[j][i]
                        == SpecNum::Scalar(matrix@[j][i] as int) by {
                        assert(gv@[j]@ == matrix@[j]);
                        assert(d@[j][i] == SpecNum::Scalar(gv@[j]@[i] as int));
                    }
                }
                Ok(d)
            },
            Err(e) => Err(e),
        }
    }

    /// The grid's rows of entries, as a plain borrowed buffer.
    pub fn get_val(&self) -> (r: &Vec<Vec<DeterNum>>)
        ensures
            grid_view(r@) == self@,
    {
        &self.val
    }

    /// The grid height (and width).
    pub fn shape(&self) -> (r: usize)
        ensures
            r == self@.len(),
    {
        self.val.len()
    }

    /// Replaces the entry in column `x` of row `y`.
    pub fn change_place(&mut self, x: usize, y: usize, val: DeterNum) -> (r: Result<
        (),
        LinAlgError,
    >)
        requires
            old(self).wf(),
        ensures
            final(self).wf(),
            final(self)@.len() == old(self)@.len(),
            x < old(self)@.len() && y < old(self)@.len() ==> (r is Ok && final(self)@ == old(
                self,
            )@.update(y as int, old(self)@[y as int].update(x as int, val@))),
            !(x < old(self)@.len() && y < old(self)@.len()) ==> (r == Err::<(), LinAlgError>(
                LinAlgError::IndexOutOfRange,
            ) && final(self)@ == old(self)@),
    {
        if x < self.val.len() && y < self.val.len() {
            proof {
                assert(self@[y as int].len() == self@.len());
                assert(self@[y as int] == self.val@[y as int]@.map_values(|e: DeterNum| e@));
            }
            let mut row = self.val.remove(y);
            row.set(x, val);
            self.val.insert(y, row);
            proof {
                assert(self@ =~~= old(self)@.update(
                    y as int,
                    old(self)@[y as int].update(x as int, val@),
                ));
                assert(forall|j: int|
                    0 <= j < self@.len() ==> (#[trigger] self@[j]).len() == self@.len());
            }
            Ok(())
        } else {
            Err(LinAlgError::IndexOutOfRange)
        }
    }

    /// Evaluates the grid by recursive cofactor expansion along the first
    /// row, with exact checked arithmetic throughout: the empty grid is
    /// scalar zero, a single entry is returned unchanged, a two-by-two
    /// grid uses the closed form, and a larger grid accumulates signed
    /// products of first-row entries with their minors.
    pub fn cal(&self) -> (r: Result<DeterNum, LinAlgError>)
        requires
            self.wf(),
        ensures
            res_view(r) == eval_grid(self@),
        decreases self@.len(),
    {
        let n = self.val.len();
        if n == 0 {
            return Ok(DeterNum::Scalar(0));
        }
        proof {
            assert(self@[0] == self.val@[0]@.map_values(|e: DeterNum| e@));
            assert(self@[0].len() == n);
        }
        if n == 1 {
            let e = self.val[0][0].clone();
            proof {
                assert(e@ == self@[0][0]);
            }
            return Ok(e);
        }
        if n == 2 {
            proof {
                assert(self@[1] == self.val@[1]@.map_values(|e: DeterNum| e@));
                assert(self@[1].len() == n);
            }
            let p1 = match self.val[0][0].clone().mul(self.val[1][1].clone()) {
                Ok(v) => v,
                Err(e) => {
                    return Err(e);
                },
            };
            let p2 = match self.val[0][1].clone().mul(self.val[1][0].clone()) {
                Ok(v) => v,
                Err(e) => {
                    return Err(e);
                },
            };
            return p1.sub(p2);
        }
        let mut add_bucket: Vec<DeterNum> = Vec::new();
        let mut sub_bucket: Vec<DeterNum> = Vec::new();
        let ghost g = self@;
        let ghost mut terms: Seq<SpecNum> = Seq::empty();
        proof {
            assert(evens(terms) =~= Seq::<SpecNum>::empty());
            assert(odds(terms) =~= Seq::<SpecNum>::empty());
            assert(add_bucket@.map_values(|e: DeterNum| e@) =~= evens(terms));
            assert(sub_bucket@.map_values(|e: DeterNum| e@) =~= odds(terms));
        }
        let mut i: usize = 0;
        while i < n
            invariant
                self.wf(),
                g == self@,
                n == self@.len(),
                3 <= n,
                0 <= i <= n,
                eval_terms(g, i as int) == Ok::<Seq<SpecNum>, LinAlgError>(terms),
                terms.len() == i,
                add_bucket@.map_values(|e: DeterNum| e@) == evens(terms),
                sub_bucket@.map_values(|e: DeterNum| e@) == odds(terms),
            decreases n - i,
        {
            let mut buf: Vec<Vec<DeterNum>> = Vec::new();
            let mut row: usize = 1;
            while row < n
                invariant
                    self.wf(),
                    g == self@,
                    n == self@.len(),
                    3 <= n,
                    0 <= i < n,
                    1 <= row <= n,
                    buf@.len() == row - 1,
                    forall|k: int|
                        0 <= k < row - 1 ==> (#[trigger] buf@[k])@.map_values(|e: DeterNum| e@)
                            == row_minor(g[k + 1], i as int),
                    forall|k: int| 0 <= k < row - 1 ==> (#[trigger] buf@[k])@.len() == n - 1,
                decreases n - row,
            {
                proof {
                    assert(self@[row as int] == self.val@[row as int]@.map_values(
                        |e: DeterNum| e@,
                    ));
                    assert(self@[row as int].len() == n);
                }
                let r_ref = &self.val[row];
                let mut buf_1: Vec<DeterNum> = Vec::new();
                let mut col: usize = 0;
                while col < n
                    invariant
                        self.wf(),
                        g == self@,
                        n == self@.len(),
                        0 <= i < n,
                        1 <= row < n,
                        0 <= col <= n,
                        r_ref@.map_values(|e: DeterNum| e@) == g[row as int],
                        r_ref@.len() == n,
                        buf_1@.len() == (if col <= i {
                            col as int
                        } else {
                            col - 1
                        }),
                        forall|k: int|
                            0 <= k < buf_1@.len() ==> (#[trigger] buf_1@[k])@ == (if k
                                < i as int {
                                g[row as int][k]
                            } else {
                                g[row as int][k + 1]
                            }),
                    decreases n - col,
                {
                    if col != i {
                        buf_1.push(r_ref[col].clone());
                    }
                    col += 1;
                }
                proof {
                    assert(buf_1@.map_values(|e: DeterNum| e@) =~= row_minor(
                        g[row as int],
                        i as int,
                    ));
                }
                buf.push(buf_1);
                row += 1;
            }
            proof {
                assert(forall|k: int|
                    0 <= k < buf@.len() ==> (#[trigger] buf@[k])@.len() == buf@.len());
            }
            let sub_det = match Determinant::from_vec_deter(buf) {
                Ok(d) => d,
                Err(e) => {
                    proof {
                        assert(false);
                    }
                    return Err(e);
                },
            };
            proof {
                assert(sub_det@ =~= minor(g, i as int));
            }
            let m = match sub_det.cal() {
                Ok(v) => v,
                Err(e) => {
                    proof {
                        assert(term_at(g, i as int) == Err::<SpecNum, LinAlgError>(e));
                        assert(eval_terms(g, i as int + 1) == Err::<Seq<SpecNum>, LinAlgError>(e));
                        lemma_eval_terms_err(g, i as int + 1, n as int);
                    }
                    return Err(e);
                },
            };
            proof {
                assert(self@[0][i as int] == self.val@[0]@.map_values(|e: DeterNum| e@)[i as int]);
            }
            let t = match self.val[0][i].clone().mul(m) {
                Ok(v) => v,
                Err(e) => {
                    proof {
                        assert(term_at(g, i as int) == Err::<SpecNum, LinAlgError>(e));
                        assert(eval_terms(g, i as int + 1) == Err::<Seq<SpecNum>, LinAlgError>(e));
                        lemma_eval_terms_err(g, i as int + 1, n as int);
                    }
                    return Err(e);
                },
            };
            let ghost tg = t@;
            proof {
                assert(term_at(g, i as int) == Ok::<SpecNum, LinAlgError>(tg));
                assert(eval_terms(g, i as int + 1) == Ok::<Seq<SpecNum>, LinAlgError>(
                    terms.push(tg),
                ));
                lemma_buckets_push(terms, tg);
            }
            if i % 2 == 0 {
                let ghost ag = add_bucket@;
                add_bucket.push(t);
                proof {
                    assert(add_bucket@.map_values(|e: DeterNum| e@) =~= evens(terms).push(tg));
                    assert(sub_bucket@.map_values(|e: DeterNum| e@) == odds(terms.push(tg)));
                }
            } else {
                let ghost sg = sub_bucket@;
                sub_bucket.push(t);
                proof {
                    assert(sub_bucket@.map_values(|e: DeterNum| e@) =~= odds(terms).push(tg));
                    assert(add_bucket@.map_values(|e: DeterNum| e@) == evens(terms.push(tg)));
                }
            }
            proof {
                terms = terms.push(tg);
            }
            i += 1;
        }
        let ghost ev = evens(terms);
        let ghost od = odds(terms);
        proof {
            assert(eval_terms(g, n as int) == Ok::<Seq<SpecNum>, LinAlgError>(terms));
            assert(ev.len() == add_bucket@.len());
            assert(od.len() == sub_bucket@.len());
            assert(ev.len() >= 2);
            assert(od.len() >= 1);
            assert(ev.take(1).len() == 1);
            assert(ev.take(1)[0] == ev[0]);
        }
        let mut acc_add = add_bucket[0].clone();
        proof {
            assert(add_bucket@[0]@ == ev[0]);
            assert(fold_add(ev.take(1)) == Ok::<SpecNum, LinAlgError>(acc_add@));
        }
        let mut k: usize = 1;
        while k < add_bucket.len()
            invariant
                g == self@,
                n == self@.len(),
                3 <= n,
                eval_terms(g, n as int) == Ok::<Seq<SpecNum>, LinAlgError>(terms),
                ev == evens(terms),
                od == odds(terms),
                add_bucket@.map_values(|e: DeterNum| e@) == ev,
                sub_bucket@.map_values(|e: DeterNum| e@) == od,
                1 <= k <= add_bucket@.len(),
                fold_add(ev.take(k as int)) == Ok::<SpecNum, LinAlgError>(acc_add@),
            decreases add_bucket@.len() - k,
        {
            proof {
                assert(ev.take(k as int + 1).drop_last() =~= ev.take(k as int));
                assert(ev.take(k as int + 1).last() == ev[k as int]);
                assert(add_bucket@[k as int]@ == ev[k as int]);
            }
            acc_add = match acc_add.add(add_bucket[k].clone()) {
                Ok(v) => v,
                Err(e) => {
                    proof {
                        assert(fold_add(ev.take(k as int + 1)) == Err::<SpecNum, LinAlgError>(e));
                        lemma_fold_add_err(ev, k as int + 1);
                        assert(ev.take(ev.len() as int) =~= ev);
                        assert(fold_add(ev) == Err::<SpecNum, LinAlgError>(e));
                    }
                    return Err(e);
                },
            };
            k += 1;
        }
        proof {
            assert(ev.take(ev.len() as int) =~= ev);
            assert(fold_add(ev) == Ok::<SpecNum, LinAlgError>(acc_add@));
            assert(od.take(1).len() == 1);
            assert(od.take(1)[0] == od[0]);
        }
        let mut acc_sub = sub_bucket[0].clone();
        proof {
            assert(sub_bucket@[0]@ == od[0]);
            assert(fold_add(od.take(1)) == Ok::<SpecNum, LinAlgError>(acc_sub@));
        }
        let mut k: usize = 1;
        while k < sub_bucket.len()
            invariant
                g == self@,
                n == self@.len(),
                3 <= n,
                eval_terms(g, n as int) == Ok::<Seq<SpecNum>, LinAlgError>(terms),
                ev == evens(terms),
                od == odds(terms),
                sub_bucket@.map_values(|e: DeterNum| e@) == od,
                fold_add(ev) == Ok::<SpecNum, LinAlgError>(acc_add@),
                1 <= k <= sub_bucket@.len(),
                fold_add(od.take(k as int)) == Ok::<SpecNum, LinAlgError>(acc_sub@),
            decreases sub_bucket@.len() - k,
        {
            proof {
                assert(od.take(k as int + 1).drop_last() =~= od.take(k as int));
                assert(od.take(k as int + 1).last() == od[k as int]);
                assert(sub_bucket@[k as int]@ == od[k as int]);
            }
            acc_sub = match acc_sub.add(sub_bucket[k].clone()) {
                Ok(v) => v,
                Err(e) => {
                    proof {
                        assert(fold_add(od.take(k as int + 1)) == Err::<SpecNum, LinAlgError>(e));
                        lemma_fold_add_err(od, k as int + 1);
                        assert(od.take(od.len() as int) =~= od);
                        assert(fold_add(od) == Err::<SpecNum, LinAlgError>(e));
                    }
                    return Err(e);
                },
            };
            k += 1;
        }
        proof {
            assert(od.take(od.len() as int) =~= od);
            assert(fold_add(od) == Ok::<SpecNum, LinAlgError>(acc_sub@));
        }
        acc_add.sub(acc_sub)
    }

    /// Replaces the entry in column `x` of row `y` with a scalar.
    pub fn change_place_float(&mut self, x: usize, y: usize, val: i64) -> (r: Result<
        (),
        LinAlgError,
    >)
        requires
            old(self).wf(),
        ensures
            final(self).wf(),
            final(self)@.len() == old(self)@.len(),
            x < old(self)@.len() && y < old(self)@.len() ==> (r is Ok && final(self)@ == old(
                self,
            )@.update(y as int, old(self)@[y as int].update(x as int, SpecNum::Scalar(val as int)))),
            !(x < old(self)@.len() && y < old(self)@.len()) ==> (r == Err::<(), LinAlgError>(
                LinAlgError::IndexOutOfRange,
            ) && final(self)@ == old(self)@),
    {
        self.change_place(x, y, DeterNum::Scalar(val))
    }

    /// Replaces the entry in column `x` of row `y` with a vector.
    pub fn change_place_vector(&mut self, x: usize, y: usize, val: Vector) -> (r: Result<
        (),
        LinAlgError,
    >)
        requires
            old(self).wf(),
        ensures
            final(self).wf(),
            final(self)@.len() == old(self)@.len(),
            x < old(self)@.len() && y < old(self)@.len() ==> (r is Ok && final(self)@ == old(
                self,
            )@.update(
                y as int,
                old(self)@[y as int].update(x as int, SpecNum::VectorValue(ints(val@))),
            )),
            !(x < old(self)@.len() && y < old(self)@.len()) ==> (r == Err::<(), LinAlgError>(
                LinAlgError::IndexOutOfRange,
            ) && final(self)@ == old(self)@),
    {
        self.change_place(x, y, DeterNum::VectorValue(val))
    }
}

} // verus!
