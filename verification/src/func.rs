//! The activation interfaces, and the exact rectified-linear activation
//! for scalars and vectors.

use vstd::prelude::*;

use crate::vector::Vector;

verus! {

/// The logistic activation, forward and backward. Its values are
/// transcendental, so the library only declares the interface; numeric
/// host types implement it outside the verified core.
pub trait Sigmoid: Sized {
    fn sig_for(&self) -> Self;
    fn sig_back(&self) -> Self;
}

/// The hyperbolic-tangent activation, forward and backward. Declared
/// here, implemented by numeric host types outside the verified core.
pub trait Tanh: Sized {
    fn tanh_for(&self) -> Self;
    fn tanh_back(&self) -> Self;
}

/// The rectified-linear activation, forward and backward, with its exact
/// meaning stated over the implementing type's view.
pub trait Relu: View + Sized {
    /// What the forward pass returns, as a value of the view type.
    spec fn relu_for_view(&self) -> Self::V;

    /// What the backward pass returns, as a value of the view type.
    spec fn relu_back_view(&self) -> Self::V;

    /// The value with every negative part clamped to zero.
    fn relu_for(&self) -> (r: Self)
        ensures
            r@ == self.relu_for_view(),
    ;

    /// The derivative mask: one where the value is positive, else zero.
    fn relu_back(&self) -> (r: Self)
        ensures
            r@ == self.relu_back_view(),
    ;
}

/// The column-normalizing exponential activation. Declared here,
/// implemented by numeric host types outside the verified core.
pub trait Softmax: Sized {
    fn soft_for(&self) -> Self;
}

/// A scalar clamped to zero from below.
pub open spec fn relu64(x: i64) -> i64 {
    if x > 0 {
        x
    } else {
        0
    }
}

/// One where a scalar is positive, else zero.
pub open spec fn relu64_back(x: i64) -> i64 {
    if x > 0 {
        1
    } else {
        0
    }
}

impl Relu for i64 {
    open spec fn relu_for_view(&self) -> i64 {
        relu64(*self)
    }

    open spec fn relu_back_view(&self) -> i64 {
        relu64_back(*self)
    }

    fn relu_for(&self) -> (r: Self)
        ensures
            r@ == self.relu_for_view(),
    {
        if *self > 0 {
            *self
        } else {
            0
        }
    }

    fn relu_back(&self) -> (r: Self)
        ensures
            r@ == self.relu_back_view(),
    {
        if *self > 0 {
            1
        } else {
            0
        }
    }
}

impl Relu for Vector {
    open spec fn relu_for_view(&self) -> Seq<i64> {
        self@.map_values(|x: i64| relu64(x))
    }

    open spec fn relu_back_view(&self) -> Seq<i64> {
        self@.map_values(|x: i64| relu64_back(x))
    }

    fn relu_for(&self) -> (r: Self)
        ensures
            r@ == self.relu_for_view(),
    {
        let n = self.len();
        let mut out: Vec<i64> = Vec::new();
        let mut i: usize = 0;
        while i < n
            invariant
                n == self@.len(),
                0 <= i <= n,
                out@.len() == i,
                forall|j: int| 0 <= j < i ==> #[trigger] out@[j] == relu64(self@[j]),
            decreases n - i,
        {
            let x = self.get_val()[i];
            out.push(if x > 0 {
                x
            } else {
                0
            });
            i += 1;
        }
        proof {
            assert(out@ =~= self.relu_for_view());
        }
        Vector::from_vec(out)
    }

    fn relu_back(&self) -> (r: Self)
        ensures
            r@ == self.relu_back_view(),
    {
        let n = self.len();
        let mut out: Vec<i64> = Vec::new();
        let mut i: usize = 0;
        while i < n
            invariant
                n == self@.len(),
                0 <= i <= n,
                out@.len() == i,
                forall|j: int| 0 <= j < i ==> #[trigger] out@[j] == relu64_back(self@[j]),
            decreases n - i,
        {
            let x = self.get_val()[i];
            out.push(if x > 0 {
                1
            } else {
                0
            });
            i += 1;
        }
        proof {
            assert(out@ =~= self.relu_back_view());
        }
        Vector::from_vec(out)
    }
}

} // verus!
