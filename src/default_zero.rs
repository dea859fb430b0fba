use vstd::prelude::*;

verus! {

/// A type whose all-zero-bytes value is its valid default.
///
/// Register-sized storage blocks are filled with this value before any
/// element is written to them.
pub trait DefaultZero: Sized {
    /// The all-zero value of the type.
    spec fn spec_zero() -> Self;

    fn default_zero() -> (r: Self)
        ensures
            r == Self::spec_zero(),
    ;
}

impl DefaultZero for i8 {
    open spec fn spec_zero() -> i8 {
        0
    }

    fn default_zero() -> (r: i8) {
        0
    }
}

impl DefaultZero for i16 {
    open spec fn spec_zero() -> i16 {
        0
    }

    fn default_zero() -> (r: i16) {
        0
    }
}

impl DefaultZero for i32 {
    open spec fn spec_zero() -> i32 {
        0
    }

    fn default_zero() -> (r: i32) {
        0
    }
}

impl DefaultZero for i64 {
    open spec fn spec_zero() -> i64 {
        0
    }

    fn default_zero() -> (r: i64) {
        0
    }
}

impl DefaultZero for i128 {
    open spec fn spec_zero() -> i128 {
        0
    }

    fn default_zero() -> (r: i128) {
        0
    }
}

impl DefaultZero for isize {
    open spec fn spec_zero() -> isize {
        0
    }

    fn default_zero() -> (r: isize) {
        0
    }
}

impl DefaultZero for u8 {
    open spec fn spec_zero() -> u8 {
        0
    }

    fn default_zero() -> (r: u8) {
        0
    }
}

impl DefaultZero for u16 {
    open spec fn spec_zero() -> u16 {
        0
    }

    fn default_zero() -> (r: u16) {
        0
    }
}

impl DefaultZero for u32 {
    open spec fn spec_zero() -> u32 {
        0
    }

    fn default_zero() -> (r: u32) {
        0
    }
}

impl DefaultZero for u64 {
    open spec fn spec_zero() -> u64 {
        0
    }

    fn default_zero() -> (r: u64) {
        0
    }
}

impl DefaultZero for u128 {
    open spec fn spec_zero() -> u128 {
        0
    }

    fn default_zero() -> (r: u128) {
        0
    }
}

impl DefaultZero for usize {
    open spec fn spec_zero() -> usize {
        0
    }

    fn default_zero() -> (r: usize) {
        0
    }
}

} // verus!
