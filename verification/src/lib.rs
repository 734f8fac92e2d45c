//! An exact linear-algebra library: dynamic-length vectors, rectangular
//! matrices, and a recursive determinant engine whose entries are either
//! scalars or vectors, which makes the same cofactor expansion usable both
//! for numeric determinants and for geometric cross products.
//!
//! All arithmetic is exact `i64` arithmetic; operations whose result would
//! leave the representable range report `LinAlgError::Overflow` instead of
//! wrapping, and shape violations are reported as typed errors rather than
//! panics.

pub mod errors;
pub mod vector;
pub mod matrix;
pub mod determinant;
pub mod func;
pub mod render;
