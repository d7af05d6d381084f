//! Fixed-length vectors of finite IEEE-754 binary32 numbers.
//!
//! Every number is carried as its 32-bit pattern.  Construction, element-wise
//! addition and scaling either yield a vector whose elements are all finite or
//! a typed error; the arithmetic is round-to-nearest, ties-to-even, worked out
//! on the bit patterns.

pub mod arith;
pub mod binary32;
pub mod rounding;
pub mod vector;

