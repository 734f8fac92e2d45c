//! Fixed-length vectors of exact integers: elementwise operations,
//! reductions, and the geometric cross product.

use vstd::prelude::*;

use crate::errors::LinAlgError;
use crate::determinant::{
    basis3, cross3, cross_fits, lemma_eval_cross_grid, Determinant, DeterNum, SpecNum,
};

verus! {

/// Whether an exact integer value is representable as an `i64`.
pub open spec fn fits(x: int) -> bool {
    i64::MIN <= x <= i64::MAX
}

/// Sum of the first `k` elements of `s`, folded from the left.
pub open spec fn sum_prefix(s: Seq<i64>, k: int) -> int
    decreases k,
{
    if k <= 0 {
        0
    } else {
        sum_prefix(s, k - 1) + s[k - 1]
    }
}

/// Sum of all elements of `s`.
pub open spec fn sum_int(s: Seq<i64>) -> int {
    sum_prefix(s, s.len() as int)
}

/// The left-to-right checked sum of the first `k` elements of `s`: the
/// result of accumulating in an `i64`, where any partial sum outside the
/// representable range stops the fold with `Overflow`.
pub open spec fn sum_chk_prefix(s: Seq<i64>, k: int) -> Result<i64, LinAlgError>
    decreases k,
{
    if k <= 0 {
        Ok(0)
    } else {
        match sum_chk_prefix(s, k - 1) {
            Err(e) => Err(e),
            Ok(acc) => if fits(acc + s[k - 1]) {
                Ok((acc + s[k - 1]) as i64)
            } else {
                Err(LinAlgError::Overflow)
            },
        }
    }
}

/// The checked sum of all elements of `s`.
pub open spec fn sum_chk(s: Seq<i64>) -> Result<i64, LinAlgError> {
    sum_chk_prefix(s, s.len() as int)
}

/// Sum of the elementwise products of the first `k` positions of `a` and `b`.
pub open spec fn dot_prefix(a: Seq<i64>, b: Seq<i64>, k: int) -> int
    decreases k,
{
    if k <= 0 {
        0
    } else {
        dot_prefix(a, b, k - 1) + a[k - 1] * b[k - 1]
    }
}

/// The dot product of two equal-length sequences, as an exact integer.
pub open spec fn dot_int(a: Seq<i64>, b: Seq<i64>) -> int {
    dot_prefix(a, b, a.len() as int)
}

/// The left-to-right checked dot product over the first `k` positions: each
/// elementwise product and each partial sum must stay representable, else
/// the fold stops with `Overflow`.
pub open spec fn dot_chk_prefix(a: Seq<i64>, b: Seq<i64>, k: int) -> Result<i64, LinAlgError>
    decreases k,
{
    if k <= 0 {
        Ok(0)
    } else {
        match dot_chk_prefix(a, b, k - 1) {
            Err(e) => Err(e),
            Ok(acc) => {
                let p = a[k - 1] * b[k - 1];
                if !fits(p) {
                    Err(LinAlgError::Overflow)
                } else if !fits(acc + p) {
                    Err(LinAlgError::Overflow)
                } else {
                    Ok((acc + p) as i64)
                }
            },
        }
    }
}

/// The checked dot product of two sequences: `ShapeMismatch` on unequal
/// lengths, `Overflow` where an intermediate value leaves the range.
pub open spec fn dot_chk(a: Seq<i64>, b: Seq<i64>) -> Result<i64, LinAlgError> {
    if a.len() != b.len() {
        Err(LinAlgError::ShapeMismatch)
    } else {
        dot_chk_prefix(a, b, a.len() as int)
    }
}

/// The elements of a machine-integer sequence as exact integers.
pub open spec fn ints(s: Seq<i64>) -> Seq<int> {
    s.map_values(|x: i64| x as int)
}

/// Division of exact integers with truncation toward zero, as machine
/// division behaves on signed integers.
pub open spec fn tdiv(a: int, b: int) -> int {
    if a == 0 {
        0
    } else if a > 0 && b > 0 {
        a / b
    } else if a < 0 && b < 0 {
        (a * -1) / (b * -1)
    } else if a < 0 {
        ((a * -1) / b) * -1
    } else {
        (a / (b * -1)) * -1
    }
}

/// The largest element of a non-empty sequence.
pub open spec fn seq_max(s: Seq<i64>) -> i64
    recommends
        s.len() > 0,
    decreases s.len(),
{
    if s.len() <= 1 {
        s[0]
    } else if seq_max(s.drop_last()) >= s.last() {
        seq_max(s.drop_last())
    } else {
        s.last()
    }
}

/// The smallest element of a non-empty sequence.
pub open spec fn seq_min(s: Seq<i64>) -> i64
    recommends
        s.len() > 0,
    decreases s.len(),
{
    if s.len() <= 1 {
        s[0]
    } else if seq_min(s.drop_last()) <= s.last() {
        seq_min(s.drop_last())
    } else {
        s.last()
    }
}

/// The largest element is an element and bounds every element.
pub proof fn lemma_seq_max_props(s: Seq<i64>)
    requires
        s.len() > 0,
    ensures
        s.contains(seq_max(s)),
        forall|i: int| 0 <= i < s.len() ==> s[i] <= seq_max(s),
    decreases s.len(),
{
    if s.len() > 1 {
        lemma_seq_max_props(s.drop_last());
        assert forall|i: int| 0 <= i < s.len() implies s[i] <= seq_max(s) by {
            if i < s.len() - 1 {
                assert(s.drop_last()[i] == s[i]);
            }
        }
        if seq_max(s.drop_last()) >= s.last() {
            let j = choose|j: int|
                0 <= j < s.drop_last().len() && s.drop_last()[j] == seq_max(s.drop_last());
            assert(s[j] == seq_max(s));
        } else {
            assert(s[s.len() - 1] == seq_max(s));
        }
    }
}

/// The smallest element is an element and is below every element.
pub proof fn lemma_seq_min_props(s: Seq<i64>)
    requires
        s.len() > 0,
    ensures
        s.contains(seq_min(s)),
        forall|i: int| 0 <= i < s.len() ==> seq_min(s) <= s[i],
    decreases s.len(),
{
    if s.len() > 1 {
        lemma_seq_min_props(s.drop_last());
        assert forall|i: int| 0 <= i < s.len() implies seq_min(s) <= s[i] by {
            if i < s.len() - 1 {
                assert(s.drop_last()[i] == s[i]);
            }
        }
        if seq_min(s.drop_last()) <= s.last() {
            let j = choose|j: int|
                0 <= j < s.drop_last().len() && s.drop_last()[j] == seq_min(s.drop_last());
            assert(s[j] == seq_min(s));
        } else {
            assert(s[s.len() - 1] == seq_min(s));
        }
    }
}

/// A checked fold that has failed stays failed however far it goes on.
pub proof fn lemma_sum_chk_prefix_err(s: Seq<i64>, k: int, n: int)
    requires
        sum_chk_prefix(s, k) is Err,
        k <= n,
    ensures
        sum_chk_prefix(s, n) == sum_chk_prefix(s, k),
    decreases n - k,
{
    if n > k {
        lemma_sum_chk_prefix_err(s, k, n - 1);
    }
}

/// A checked dot product that has failed stays failed however far it goes on.
pub proof fn lemma_dot_chk_prefix_err(a: Seq<i64>, b: Seq<i64>, k: int, n: int)
    requires
        dot_chk_prefix(a, b, k) is Err,
        k <= n,
    ensures
        dot_chk_prefix(a, b, n) == dot_chk_prefix(a, b, k),
    decreases n - k,
{
    if n > k {
        lemma_dot_chk_prefix_err(a, b, k, n - 1);
    }
}

/// A checked sum that succeeds computes the exact sum of its prefix.
pub proof fn lemma_sum_chk_prefix_exact(s: Seq<i64>, k: int)
    ensures
        sum_chk_prefix(s, k) matches Ok(v) ==> v == sum_prefix(s, k),
    decreases k,
{
    if k > 0 {
        lemma_sum_chk_prefix_exact(s, k - 1);
    }
}

/// A checked dot product that succeeds computes the exact dot product of
/// its prefix.
pub proof fn lemma_dot_chk_prefix_exact(a: Seq<i64>, b: Seq<i64>, k: int)
    ensures
        dot_chk_prefix(a, b, k) matches Ok(v) ==> v == dot_prefix(a, b, k),
    decreases k,
{
    if k > 0 {
        lemma_dot_chk_prefix_exact(a, b, k - 1);
    }
}

/// A fixed-length ordered sequence of exact `i64` scalars.
///
/// New vectors are produced by operations rather than by mutating shared
/// state; the mutation helpers operate on an exclusively owned instance.
#[derive(Debug, PartialEq)]
pub struct Vector {
    val: Vec<i64>,
}

impl Clone for Vector {
    /// An exact copy: the clone holds the same elements.
    fn clone(&self) -> (r: Self)
        ensures
            r@ == self@,
    {
        Vector { val: self.val.clone() }
    }
}

impl View for Vector {
    type V = Seq<i64>;

    closed spec fn view(&self) -> Seq<i64> {
        self.val@
    }
}

impl Vector {
    /// A zero-filled vector of the given length.
    pub fn new(length: usize) -> (r: Vector)
        ensures
            r@.len() == length,
            forall|i: int| 0 <= i < length ==> r@[i] == 0,
    {
        let val: Vec<i64> = vec![0i64; length];
        Vector { val }
    }

    /// A vector holding exactly the given values, in order.
    pub fn from<const L: usize>(val: [i64; L]) -> (r: Vector)
        ensures
            r@ == val@,
    {
        let mut out: Vec<i64> = Vec::new();
        let mut i: usize = 0;
        while i < L
            invariant
                0 <= i <= L,
                out@.len() == i,
                forall|j: int| 0 <= j < i ==> out@[j] == val@[j],
            decreases L - i,
        {
            out.push(val[i]);
            i += 1;
        }
        assert(out@ =~= val@);
        Vector { val: out }
    }

    /// A vector holding exactly the given values, in order.
    pub fn from_i<const L: usize>(val: [i64; L]) -> (r: Vector)
        ensures
            r@ == val@,
    {
        Vector::from(val)
    }

    /// A vector holding exactly the given values, in order.
    pub fn from_vec(val: Vec<i64>) -> (r: Vector)
        ensures
            r@ == val@,
    {
        Vector { val }
    }

    /// The number of elements.
    pub fn shape(&self) -> (r: usize)
        ensures
            r == self@.len(),
    {
        self.val.len()
    }

    /// The number of elements.
    pub fn len(&self) -> (r: usize)
        ensures
            r == self@.len(),
    {
        self.val.len()
    }

    /// Whether both vectors have the same length.
    pub fn same_shape(&self, rhs: &Vector) -> (r: bool)
        ensures
            r == (self@.len() == rhs@.len()),
    {
        self.val.len() == rhs.val.len()
    }

    /// The elements as a plain borrowed buffer.
    pub fn get_val(&self) -> (r: &Vec<i64>)
        ensures
            r@ == self@,
    {
        &self.val
    }

    /// The element at the given position.
    pub fn get_at(&self, place: usize) -> (r: Result<i64, LinAlgError>)
        ensures
            place < self@.len() ==> r == Ok::<i64, LinAlgError>(self@[place as int]),
            place >= self@.len() ==> r == Err::<i64, LinAlgError>(LinAlgError::IndexOutOfRange),
    {
        if place < self.val.len() {
            Ok(self.val[place])
        } else {
            Err(LinAlgError::IndexOutOfRange)
        }
    }

    /// Replaces the element at the given position, leaving the rest as is.
    pub fn change_place(&mut self, place: usize, v: i64) -> (r: Result<(), LinAlgError>)
        ensures
            place < old(self)@.len() ==> (r is Ok && final(self)@ == old(self)@.update(
                place as int,
                v,
            )),
            place >= old(self)@.len() ==> (r == Err::<(), LinAlgError>(LinAlgError::IndexOutOfRange)
                && final(self)@ == old(self)@),
    {
        if place < self.val.len() {
            self.val.set(place, v);
            Ok(())
        } else {
            Err(LinAlgError::IndexOutOfRange)
        }
    }

    /// The new vector built by combining the two operands elementwise with
    /// `op`; the shapes must agree.
    pub fn oper_with<F: Fn(i64, i64) -> i64>(&self, rhs: &Vector, op: &F) -> (r: Result<
        Vector,
        LinAlgError,
    >)
        requires
            self@.len() == rhs@.len() ==> forall|i: int|
                0 <= i < self@.len() ==> call_requires(op, (#[trigger] self@[i], rhs@[i])),
        ensures
            self@.len() != rhs@.len() ==> r == Err::<Vector, LinAlgError>(
                LinAlgError::ShapeMismatch,
            ),
            self@.len() == rhs@.len() ==> (r matches Ok(v) && v@.len() == self@.len() && forall|
                i: int,
            |
                0 <= i < self@.len() ==> call_ensures(op, (self@[i], rhs@[i]), #[trigger] v@[i])),
    {
        if self.val.len() != rhs.val.len() {
            return Err(LinAlgError::ShapeMismatch);
        }
        let mut out: Vec<i64> = Vec::new();
        let n = self.val.len();
        let mut i: usize = 0;
        while i < n
            invariant
                n == self@.len(),
                n == rhs@.len(),
                0 <= i <= n,
                out@.len() == i,
                forall|j: int| 0 <= j < n ==> call_requires(op, (#[trigger] self@[j], rhs@[j])),
                forall|j: int|
                    0 <= j < i ==> call_ensures(op, (self@[j], rhs@[j]), #[trigger] out@[j]),
            decreases n - i,
        {
            out.push(op(self.val[i], rhs.val[i]));
            i += 1;
        }
        Ok(Vector { val: out })
    }

    /// The new vector with `op` applied to each element.
    pub fn oper<F: Fn(i64) -> i64>(&self, op: &F) -> (r: Vector)
        requires
            forall|i: int| 0 <= i < self@.len() ==> call_requires(op, (#[trigger] self@[i],)),
        ensures
            r@.len() == self@.len(),
            forall|i: int| 0 <= i < self@.len() ==> call_ensures(op, (self@[i],), #[trigger] r@[i]),
    {
        let mut out: Vec<i64> = Vec::new();
        let n = self.val.len();
        let mut i: usize = 0;
        while i < n
            invariant
                n == self@.len(),
                0 <= i <= n,
                out@.len() == i,
                forall|j: int| 0 <= j < n ==> call_requires(op, (#[trigger] self@[j],)),
                forall|j: int| 0 <= j < i ==> call_ensures(op, (self@[j],), #[trigger] out@[j]),
            decreases n - i,
        {
            out.push(op(self.val[i]));
            i += 1;
        }
        Vector { val: out }
    }

    /// Applies `op` to each element in place.
    pub fn oper_assign<F: Fn(i64) -> i64>(&mut self, op: &F)
        requires
            forall|i: int|
                0 <= i < old(self)@.len() ==> call_requires(op, (#[trigger] old(self)@[i],)),
        ensures
            final(self)@.len() == old(self)@.len(),
            forall|i: int|
                0 <= i < old(self)@.len() ==> call_ensures(
                    op,
                    (old(self)@[i],),
                    #[trigger] final(self)@[i],
                ),
    {
        let r = self.oper(op);
        *self = r;
    }

    /// The elementwise sum of the two vectors; the shapes must agree and
    /// every elementwise sum must stay representable.
    pub fn add(&self, rhs: &Vector) -> (r: Result<Vector, LinAlgError>)
        ensures
            r matches Ok(v) ==> (self@.len() == rhs@.len() && v@.len() == self@.len() && forall|
                i: int,
            | #![trigger v@[i]] 0 <= i < self@.len() ==> v@[i] == self@[i] + rhs@[i] && fits(
                self@[i] + rhs@[i],
            )),
            self@.len() != rhs@.len() ==> r == Err::<Vector, LinAlgError>(
                LinAlgError::ShapeMismatch,
            ),
            self@.len() == rhs@.len() && (forall|i: int|
                0 <= i < self@.len() ==> fits(self@[i] + rhs@[i])) ==> (r matches Ok(v)
                && v@.len() == self@.len() && forall|i: int| #![trigger v@[i]]
                0 <= i < self@.len() ==> v@[i] == self@[i] + rhs@[i]),
            self@.len() == rhs@.len() && !(forall|i: int|
                0 <= i < self@.len() ==> fits(self@[i] + rhs@[i])) ==> r == Err::<
                Vector,
                LinAlgError,
            >(LinAlgError::Overflow),
    {
        if self.val.len() != rhs.val.len() {
            return Err(LinAlgError::ShapeMismatch);
        }
        let n = self.val.len();
        let mut out: Vec<i64> = Vec::new();
        let mut i: usize = 0;
        while i < n
            invariant
                n == self@.len() == rhs@.len(),
                0 <= i <= n,
                out@.len() == i,
                forall|j: int| 0 <= j < i ==> fits(self@[j] + rhs@[j]),
                forall|j: int| 0 <= j < i ==> #[trigger] out@[j] == self@[j] + rhs@[j],
            decreases n - i,
        {
            match self.val[i].checked_add(rhs.val[i]) {
                Some(s) => out.push(s),
                None => {
                    return Err(LinAlgError::Overflow);
                },
            }
            i += 1;
        }
        Ok(Vector { val: out })
    }

    /// The elementwise difference of the two vectors; the shapes must agree
    /// and every elementwise difference must stay representable.
    pub fn sub(&self, rhs: &Vector) -> (r: Result<Vector, LinAlgError>)
        ensures
            r matches Ok(v) ==> (self@.len() == rhs@.len() && v@.len() == self@.len() && forall|
                i: int,
            | #![trigger v@[i]] 0 <= i < self@.len() ==> v@[i] == self@[i] - rhs@[i] && fits(
                self@[i] - rhs@[i],
            )),
            self@.len() != rhs@.len() ==> r == Err::<Vector, LinAlgError>(
                LinAlgError::ShapeMismatch,
            ),
            self@.len() == rhs@.len() && (forall|i: int|
                0 <= i < self@.len() ==> fits(self@[i] - rhs@[i])) ==> (r matches Ok(v)
                && v@.len() == self@.len() && forall|i: int| #![trigger v@[i]]
                0 <= i < self@.len() ==> v@[i] == self@[i] - rhs@[i]),
            self@.len() == rhs@.len() && !(forall|i: int|
                0 <= i < self@.len() ==> fits(self@[i] - rhs@[i])) ==> r == Err::<
                Vector,
                LinAlgError,
            >(LinAlgError::Overflow),
    {
        if self.val.len() != rhs.val.len() {
            return Err(LinAlgError::ShapeMismatch);
        }
        let n = self.val.len();
        let mut out: Vec<i64> = Vec::new();
        let mut i: usize = 0;
        while i < n
            invariant
                n == self@.len() == rhs@.len(),
                0 <= i <= n,
                out@.len() == i,
                forall|j: int| 0 <= j < i ==> fits(self@[j] - rhs@[j]),
                forall|j: int| 0 <= j < i ==> #[trigger] out@[j] == self@[j] - rhs@[j],
            decreases n - i,
        {
            match self.val[i].checked_sub(rhs.val[i]) {
                Some(s) => out.push(s),
                None => {
                    return Err(LinAlgError::Overflow);
                },
            }
            i += 1;
        }
        Ok(Vector { val: out })
    }

    /// The elementwise (Hadamard) product of the two vectors; the shapes
    /// must agree and every elementwise product must stay representable.
    pub fn had_product(&self, rhs: &Vector) -> (r: Result<Vector, LinAlgError>)
        ensures
            r matches Ok(v) ==> (self@.len() == rhs@.len() && v@.len() == self@.len() && forall|
                i: int,
            | #![trigger v@[i]] 0 <= i < self@.len() ==> v@[i] == self@[i] * rhs@[i] && fits(
                self@[i] * rhs@[i],
            )),
            self@.len() != rhs@.len() ==> r == Err::<Vector, LinAlgError>(
                LinAlgError::ShapeMismatch,
            ),
            self@.len() == rhs@.len() && (forall|i: int|
                0 <= i < self@.len() ==> fits(self@[i] * rhs@[i])) ==> (r matches Ok(v)
                && v@.len() == self@.len() && forall|i: int| #![trigger v@[i]]
                0 <= i < self@.len() ==> v@[i] == self@[i] * rhs@[i]),
            self@.len() == rhs@.len() && !(forall|i: int|
                0 <= i < self@.len() ==> fits(self@[i] * rhs@[i])) ==> r == Err::<
                Vector,
                LinAlgError,
            >(LinAlgError::Overflow),
    {
        if self.val.len() != rhs.val.len() {
            return Err(LinAlgError::ShapeMismatch);
        }
        let n = self.val.len();
        let mut out: Vec<i64> = Vec::new();
        let mut i: usize = 0;
        while i < n
            invariant
                n == self@.len() == rhs@.len(),
                0 <= i <= n,
                out@.len() == i,
                forall|j: int| 0 <= j < i ==> fits(self@[j] * rhs@[j]),
                forall|j: int| 0 <= j < i ==> #[trigger] out@[j] == self@[j] * rhs@[j],
            decreases n - i,
        {
            match self.val[i].checked_mul(rhs.val[i]) {
                Some(s) => out.push(s),
                None => {
                    return Err(LinAlgError::Overflow);
                },
            }
            i += 1;
        }
        Ok(Vector { val: out })
    }

    /// The elementwise quotient of the two vectors, truncating toward zero;
    /// the shapes must agree, no divisor may be zero, and every quotient
    /// must stay representable.
    pub fn div(&self, rhs: &Vector) -> (r: Result<Vector, LinAlgError>)
        ensures
            r matches Ok(v) ==> (self@.len() == rhs@.len() && v@.len() == self@.len() && forall|
                i: int,
            | #![trigger v@[i]] 0 <= i < self@.len() ==> v@[i] == tdiv(
                self@[i] as int,
                rhs@[i] as int,
            ) && fits(tdiv(self@[i] as int, rhs@[i] as int))),
            self@.len() != rhs@.len() ==> r == Err::<Vector, LinAlgError>(
                LinAlgError::ShapeMismatch,
            ),
            self@.len() == rhs@.len() && (exists|i: int| 0 <= i < rhs@.len() && rhs@[i] == 0)
                ==> r == Err::<Vector, LinAlgError>(LinAlgError::DivisionByZero),
            self@.len() == rhs@.len() && (forall|i: int| 0 <= i < rhs@.len() ==> rhs@[i] != 0) && (
            forall|i: int| 0 <= i < self@.len() ==> fits(tdiv(self@[i] as int, rhs@[i] as int)))
                ==> (r matches Ok(v) && v@.len() == self@.len() && forall|i: int| #![trigger v@[i]]
                0 <= i < self@.len() ==> v@[i] == tdiv(self@[i] as int, rhs@[i] as int)),
            self@.len() == rhs@.len() && (forall|i: int| 0 <= i < rhs@.len() ==> rhs@[i] != 0) && !(
            forall|i: int| 0 <= i < self@.len() ==> fits(tdiv(self@[i] as int, rhs@[i] as int)))
                ==> r == Err::<Vector, LinAlgError>(LinAlgError::Overflow),
    {
        if self.val.len() != rhs.val.len() {
            return Err(LinAlgError::ShapeMismatch);
        }
        let n = self.val.len();
        let mut i: usize = 0;
        while i < n
            invariant
                n == self@.len() == rhs@.len(),
                0 <= i <= n,
                forall|j: int| 0 <= j < i ==> rhs@[j] != 0,
            decreases n - i,
        {
            if rhs.val[i] == 0 {
                return Err(LinAlgError::DivisionByZero);
            }
            i += 1;
        }
        let mut out: Vec<i64> = Vec::new();
        let mut i: usize = 0;
        while i < n
            invariant
                n == self@.len() == rhs@.len(),
                0 <= i <= n,
                out@.len() == i,
                forall|j: int| 0 <= j < n ==> rhs@[j] != 0,
                forall|j: int| 0 <= j < i ==> fits(tdiv(self@[j] as int, rhs@[j] as int)),
                forall|j: int|
                    0 <= j < i ==> #[trigger] out@[j] == tdiv(self@[j] as int, rhs@[j] as int),
            decreases n - i,
        {
            match self.val[i].checked_div(rhs.val[i]) {
                Some(s) => out.push(s),
                None => {
                    return Err(LinAlgError::Overflow);
                },
            }
            i += 1;
        }
        Ok(Vector { val: out })
    }

    /// The elementwise negation of the vector; every negated element must
    /// stay representable.
    pub fn neg(&self) -> (r: Result<Vector, LinAlgError>)
        ensures
            r matches Ok(v) ==> (v@.len() == self@.len() && forall|i: int| #![trigger v@[i]]
                0 <= i < self@.len() ==> v@[i] == -self@[i] && fits(-self@[i])),
            (forall|i: int| 0 <= i < self@.len() ==> fits(-self@[i])) ==> (r matches Ok(v)
                && v@.len() == self@.len() && forall|i: int| #![trigger v@[i]]
                0 <= i < self@.len() ==> v@[i] == -self@[i] && fits(-self@[i])),
            !(forall|i: int| 0 <= i < self@.len() ==> fits(-self@[i])) ==> r == Err::<
                Vector,
                LinAlgError,
            >(LinAlgError::Overflow),
    {
        let n = self.val.len();
        let mut out: Vec<i64> = Vec::new();
        let mut i: usize = 0;
        while i < n
            invariant
                n == self@.len(),
                0 <= i <= n,
                out@.len() == i,
                forall|j: int| 0 <= j < i ==> fits(-self@[j]),
                forall|j: int| 0 <= j < i ==> #[trigger] out@[j] == -self@[j],
            decreases n - i,
        {
            match 0i64.checked_sub(self.val[i]) {
                Some(s) => out.push(s),
                None => {
                    return Err(LinAlgError::Overflow);
                },
            }
            i += 1;
        }
        Ok(Vector { val: out })
    }

    /// The vector scaled elementwise by `times`; every product must stay
    /// representable.
    pub fn strech(&self, times: i64) -> (r: Result<Vector, LinAlgError>)
        ensures
            r matches Ok(v) ==> (v@.len() == self@.len() && forall|i: int| #![trigger v@[i]]
                0 <= i < self@.len() ==> v@[i] == self@[i] * times && fits(self@[i] * times)),
            (forall|i: int| 0 <= i < self@.len() ==> fits(self@[i] * times)) ==> (r matches Ok(v)
                && v@.len() == self@.len() && forall|i: int| #![trigger v@[i]]
                0 <= i < self@.len() ==> v@[i] == self@[i] * times && fits(self@[i] * times)),
            !(forall|i: int| 0 <= i < self@.len() ==> fits(self@[i] * times)) ==> r == Err::<
                Vector,
                LinAlgError,
            >(LinAlgError::Overflow),
    {
        let n = self.val.len();
        let mut out: Vec<i64> = Vec::new();
        let mut i: usize = 0;
        while i < n
            invariant
                n == self@.len(),
                0 <= i <= n,
                out@.len() == i,
                forall|j: int| 0 <= j < i ==> fits(self@[j] * times),
                forall|j: int| 0 <= j < i ==> #[trigger] out@[j] == self@[j] * times,
            decreases n - i,
        {
            match self.val[i].checked_mul(times) {
                Some(s) => out.push(s),
                None => {
                    return Err(LinAlgError::Overflow);
                },
            }
            i += 1;
        }
        Ok(Vector { val: out })
    }

    /// Scales the vector in place by `times`.
    pub fn strech_assign(&mut self, times: i64) -> (r: Result<(), LinAlgError>)
        ensures
            (forall|i: int| 0 <= i < old(self)@.len() ==> fits(old(self)@[i] * times)) ==> (
            r is Ok && final(self)@.len() == old(self)@.len() && forall|i: int|
                #![trigger final(self)@[i]]
                0 <= i < old(self)@.len() ==> final(self)@[i] == old(self)@[i] * times),
            !(forall|i: int| 0 <= i < old(self)@.len() ==> fits(old(self)@[i] * times)) ==> (r
                == Err::<(), LinAlgError>(LinAlgError::Overflow) && final(self)@ == old(self)@),
    {
        match self.strech(times) {
            Ok(v) => {
                *self = v;
                Ok(())
            },
            Err(e) => Err(e),
        }
    }

    /// The sum of the elementwise products of the two vectors, accumulated
    /// from the left with exact range checking.
    pub fn dot(&self, rhs: &Vector) -> (r: Result<i64, LinAlgError>)
        ensures
            r == dot_chk(self@, rhs@),
            r matches Ok(v) ==> v == dot_int(self@, rhs@),
    {
        proof {
            lemma_dot_chk_prefix_exact(self@, rhs@, self@.len() as int);
        }
        if self.val.len() != rhs.val.len() {
            return Err(LinAlgError::ShapeMismatch);
        }
        let n = self.val.len();
        let mut acc: i64 = 0;
        let mut i: usize = 0;
        while i < n
            invariant
                n == self@.len() == rhs@.len(),
                0 <= i <= n,
                dot_chk_prefix(self@, rhs@, i as int) == Ok::<i64, LinAlgError>(acc),
            decreases n - i,
        {
            let p = match self.val[i].checked_mul(rhs.val[i]) {
                Some(p) => p,
                None => {
                    proof {
                        lemma_dot_chk_prefix_err(self@, rhs@, i + 1, n as int);
                    }
                    return Err(LinAlgError::Overflow);
                },
            };
            acc = match acc.checked_add(p) {
                Some(a) => a,
                None => {
                    proof {
                        lemma_dot_chk_prefix_err(self@, rhs@, i + 1, n as int);
                    }
                    return Err(LinAlgError::Overflow);
                },
            };
            i += 1;
        }
        Ok(acc)
    }

    /// The sum of the elements, accumulated from the left with exact range
    /// checking.
    pub fn sum(&self) -> (r: Result<i64, LinAlgError>)
        ensures
            r == sum_chk(self@),
            r matches Ok(v) ==> v == sum_int(self@),
    {
        proof {
            lemma_sum_chk_prefix_exact(self@, self@.len() as int);
        }
        let n = self.val.len();
        let mut acc: i64 = 0;
        let mut i: usize = 0;
        while i < n
            invariant
                n == self@.len(),
                0 <= i <= n,
                sum_chk_prefix(self@, i as int) == Ok::<i64, LinAlgError>(acc),
            decreases n - i,
        {
            acc = match acc.checked_add(self.val[i]) {
                Some(a) => a,
                None => {
                    proof {
                        lemma_sum_chk_prefix_err(self@, i + 1, n as int);
                    }
                    return Err(LinAlgError::Overflow);
                },
            };
            i += 1;
        }
        Ok(acc)
    }

    /// The largest element; a zero-length vector has none.
    pub fn max(&self) -> (r: Result<i64, LinAlgError>)
        ensures
            self@.len() == 0 ==> r == Err::<i64, LinAlgError>(LinAlgError::EmptyVector),
            self@.len() > 0 ==> (r matches Ok(m) && m == seq_max(self@) && self@.contains(m)
                && forall|i: int| 0 <= i < self@.len() ==> self@[i] <= m),
    {
        if self.val.len() == 0 {
            return Err(LinAlgError::EmptyVector);
        }
        let n = self.val.len();
        let mut m: i64 = self.val[0];
        let mut i: usize = 1;
        while i < n
            invariant
                n == self@.len(),
                1 <= i <= n,
                m == seq_max(self@.take(i as int)),
            decreases n - i,
        {
            proof {
                let t = self@.take(i as int + 1);
                assert(t.drop_last() =~= self@.take(i as int));
                assert(t.last() == self@[i as int]);
            }
            if self.val[i] > m {
                m = self.val[i];
            }
            i += 1;
        }
        proof {
            assert(self@.take(n as int) =~= self@);
            lemma_seq_max_props(self@);
        }
        Ok(m)
    }

    /// The smallest element; a zero-length vector has none.
    pub fn min(&self) -> (r: Result<i64, LinAlgError>)
        ensures
            self@.len() == 0 ==> r == Err::<i64, LinAlgError>(LinAlgError::EmptyVector),
            self@.len() > 0 ==> (r matches Ok(m) && m == seq_min(self@) && self@.contains(m)
                && forall|i: int| 0 <= i < self@.len() ==> m <= self@[i]),
    {
        if self.val.len() == 0 {
            return Err(LinAlgError::EmptyVector);
        }
        let n = self.val.len();
        let mut m: i64 = self.val[0];
        let mut i: usize = 1;
        while i < n
            invariant
                n == self@.len(),
                1 <= i <= n,
                m == seq_min(self@.take(i as int)),
            decreases n - i,
        {
            proof {
                let t = self@.take(i as int + 1);
                assert(t.drop_last() =~= self@.take(i as int));
                assert(t.last() == self@[i as int]);
            }
            if self.val[i] < m {
                m = self.val[i];
            }
            i += 1;
        }
        proof {
            assert(self@.take(n as int) =~= self@);
            lemma_seq_min_props(self@);
        }
        Ok(m)
    }

    /// The prefix of the first `place` elements.
    pub fn slice(&self, place: usize) -> (r: Result<Vector, LinAlgError>)
        ensures
            place > self@.len() ==> r == Err::<Vector, LinAlgError>(LinAlgError::IndexOutOfRange),
            place <= self@.len() ==> (r matches Ok(v) && v@ == self@.subrange(0, place as int)),
    {
        if place > self.val.len() {
            return Err(LinAlgError::IndexOutOfRange);
        }
        let mut out: Vec<i64> = Vec::new();
        let mut i: usize = 0;
        while i < place
            invariant
                place <= self@.len(),
                0 <= i <= place,
                out@.len() == i,
                forall|j: int| 0 <= j < i ==> out@[j] == self@[j],
            decreases place - i,
        {
            out.push(self.val[i]);
            i += 1;
        }
        assert(out@ =~= self@.subrange(0, place as int));
        Ok(Vector { val: out })
    }

    /// Combines with `rhs` elementwise in place; the shapes must agree.
    pub fn oper_with_assign<F: Fn(i64, i64) -> i64>(&mut self, rhs: &Vector, op: &F) -> (r: Result<
        (),
        LinAlgError,
    >)
        requires
            old(self)@.len() == rhs@.len() ==> forall|i: int|
                0 <= i < old(self)@.len() ==> call_requires(
                    op,
                    (#[trigger] old(self)@[i], rhs@[i]),
                ),
        ensures
            old(self)@.len() != rhs@.len() ==> (r == Err::<(), LinAlgError>(
                LinAlgError::ShapeMismatch,
            ) && final(self)@ == old(self)@),
            old(self)@.len() == rhs@.len() ==> (r is Ok && final(self)@.len() == old(self)@.len()
                && forall|i: int|
                0 <= i < old(self)@.len() ==> call_ensures(
                    op,
                    (old(self)@[i], rhs@[i]),
                    #[trigger] final(self)@[i],
                )),
    {
        match self.oper_with(rhs, op) {
            Ok(v) => {
                *self = v;
                Ok(())
            },
            Err(e) => Err(e),
        }
    }

    /// The outer product: a matrix whose entry in column `x` of row `y`
    /// is `self[y] * rhs[x]`; every product must stay representable.
    pub fn out_product(&self, rhs: &Vector) -> (r: Result<crate::matrix::Matrix, LinAlgError>)
        ensures
            (forall|y: int, x: int| #![trigger self@[y], rhs@[x]]
                0 <= y < self@.len() && 0 <= x < rhs@.len() ==> fits(self@[y] * rhs@[x])) ==> (
            r matches Ok(m) && m.wf() && m.spec_shape() == (rhs@.len(), self@.len()) && forall|
                y: int,
                x: int,
            |
                #![trigger m@[y][x]]
                0 <= y < self@.len() && 0 <= x < rhs@.len() ==> m@[y][x] == self@[y] * rhs@[x]),
            !(forall|y: int, x: int| #![trigger self@[y], rhs@[x]]
                0 <= y < self@.len() && 0 <= x < rhs@.len() ==> fits(self@[y] * rhs@[x])) ==> r
                == Err::<crate::matrix::Matrix, LinAlgError>(LinAlgError::Overflow),
    {
        let rows = self.val.len();
        let cols = rhs.val.len();
        if rows == 0 {
            return Ok(crate::matrix::Matrix::new((cols, 0)));
        }
        let mut buf: Vec<Vec<i64>> = Vec::new();
        let mut y: usize = 0;
        while y < rows
            invariant
                rows == self@.len(),
                cols == rhs@.len(),
                0 <= y <= rows,
                buf@.len() == y,
                forall|k: int| 0 <= k < y ==> (#[trigger] buf@[k])@.len() == cols,
                forall|k: int, x: int| #![trigger self@[k], rhs@[x]]
                    0 <= k < y && 0 <= x < cols ==> fits(self@[k] * rhs@[x]),
                forall|k: int, x: int| #![trigger buf@[k]@[x]]
                    0 <= k < y && 0 <= x < cols ==> buf@[k]@[x] == self@[k] * rhs@[x],
            decreases rows - y,
        {
            let mut row: Vec<i64> = Vec::new();
            let mut x: usize = 0;
            while x < cols
                invariant
                    rows == self@.len(),
                    cols == rhs@.len(),
                    0 <= y < rows,
                    0 <= x <= cols,
                    row@.len() == x,
                    forall|l: int| 0 <= l < x ==> fits(self@[y as int] * rhs@[l]),
                    forall|l: int| #![trigger row@[l]]
                        0 <= l < x ==> row@[l] == self@[y as int] * rhs@[l],
                decreases cols - x,
            {
                match self.val[y].checked_mul(rhs.val[x]) {
                    Some(p) => row.push(p),
                    None => {
                        return Err(LinAlgError::Overflow);
                    },
                }
                x += 1;
            }
            buf.push(row);
            y += 1;
        }
        let m = match crate::matrix::Matrix::from_vec(buf) {
            Ok(m) => m,
            Err(e) => {
                proof {
                    assert(forall|j: int|
                        0 <= j < buf@.len() ==> (#[trigger] buf@[j])@.len() == buf@[0]@.len());
                    assert(false);
                }
                return Err(e);
            },
        };
        proof {
            assert forall|y: int, x: int| #![trigger m@[y][x]]
                0 <= y < self@.len() && 0 <= x < rhs@.len() implies m@[y][x] == self@[y]
                * rhs@[x] by {
                assert(m@[y] == buf@[y]@);
                assert(buf@[y]@[x] == self@[y] * rhs@[x]);
            }
        }
        Ok(m)
    }

    /// The geometric cross product of two length-three vectors, computed
    /// by evaluating the determinant whose first row holds the standard
    /// basis vectors and whose remaining rows hold the two operands.
    /// Every intermediate value must stay representable.
    pub fn cross_product(&self, rhs: &Vector) -> (r: Result<Vector, LinAlgError>)
        ensures
            !(self@.len() == 3 && rhs@.len() == 3) ==> r == Err::<Vector, LinAlgError>(
                LinAlgError::ShapeMismatch,
            ),
            self@.len() == 3 && rhs@.len() == 3 && cross_fits(self@, rhs@) ==> (r matches Ok(w)
                && ints(w@) == cross3(self@, rhs@)),
            self@.len() == 3 && rhs@.len() == 3 && !cross_fits(self@, rhs@) ==> r == Err::<
                Vector,
                LinAlgError,
            >(LinAlgError::Overflow),
    {
        if self.val.len() != 3 || rhs.val.len() != 3 {
            return Err(LinAlgError::ShapeMismatch);
        }
        let mut e0: Vec<i64> = Vec::new();
        e0.push(1);
        e0.push(0);
        e0.push(0);
        let mut e1: Vec<i64> = Vec::new();
        e1.push(0);
        e1.push(1);
        e1.push(0);
        let mut e2: Vec<i64> = Vec::new();
        e2.push(0);
        e2.push(0);
        e2.push(1);
        proof {
            assert(ints(e0@) =~= basis3(0));
            assert(ints(e1@) =~= basis3(1));
            assert(ints(e2@) =~= basis3(2));
        }
        let mut row0: Vec<DeterNum> = Vec::new();
        row0.push(DeterNum::VectorValue(Vector::from_vec(e0)));
        row0.push(DeterNum::VectorValue(Vector::from_vec(e1)));
        row0.push(DeterNum::VectorValue(Vector::from_vec(e2)));
        let mut row1: Vec<DeterNum> = Vec::new();
        row1.push(DeterNum::Scalar(self.val[0]));
        row1.push(DeterNum::Scalar(self.val[1]));
        row1.push(DeterNum::Scalar(self.val[2]));
        let mut row2: Vec<DeterNum> = Vec::new();
        row2.push(DeterNum::Scalar(rhs.val[0]));
        row2.push(DeterNum::Scalar(rhs.val[1]));
        row2.push(DeterNum::Scalar(rhs.val[2]));
        let mut rows: Vec<Vec<DeterNum>> = Vec::new();
        rows.push(row0);
        rows.push(row1);
        rows.push(row2);
        let deter = match Determinant::from_vec_deter(rows) {
            Ok(d) => d,
            Err(e) => {
                proof {
                    assert(false);
                }
                return Err(e);
            },
        };
        proof {
            assert(deter@.len() == 3);
            assert(forall|i: int|
                0 <= i < 3 ==> #[trigger] deter@[0][i] == SpecNum::VectorValue(basis3(i)));
            assert(forall|i: int|
                0 <= i < 3 ==> #[trigger] deter@[1][i] == SpecNum::Scalar(self@[i] as int));
            assert(forall|i: int|
                0 <= i < 3 ==> #[trigger] deter@[2][i] == SpecNum::Scalar(rhs@[i] as int));
            lemma_eval_cross_grid(deter@, self@, rhs@);
        }
        match deter.cal() {
            Ok(out) => match out {
                DeterNum::VectorValue(w) => Ok(w),
                DeterNum::Scalar(_x) => {
                    proof {
                        assert(false);
                    }
                    Err(LinAlgError::EntryTypeMismatch)
                },
            },
            Err(e) => Err(e),
        }
    }
}

} // verus!
