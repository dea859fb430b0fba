//! Sorted-sequence search that compares a whole register of elements per
//! probe (k-ary search), over containers that keep their elements packed
//! into register-sized blocks.
//!
//! `SimdVec` grows by whole blocks; `SimdArray` has a fixed number of
//! blocks. Both implement `SimdArrayOps`, whose searches return `Ok` with a
//! position of the key or `Err` with its insertion point.

pub mod default_zero;
pub mod simd_ops;
pub mod array_ops;
pub mod vec;
pub mod array;

pub use crate::default_zero::DefaultZero;
pub use crate::simd_ops::{SimdOps, SimdRegister};
pub use crate::array_ops::SimdArrayOps;
pub use crate::vec::SimdVec;
pub use crate::array::SimdArray;
