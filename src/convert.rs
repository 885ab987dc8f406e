//! Width-safe integer conversions.
use vstd::prelude::*;

verus! {

/// Conversion into `usize` for unsigned types no wider than a pointer.
pub trait IntoUsize: Sized {
    spec fn value(self) -> int;

    fn into_usize(self) -> (r: usize)
        ensures
            r as int == self.value(),
    ;
}

/// Conversion from `usize` for unsigned types at least as wide as a pointer.
pub trait FromUsize: Sized {
    spec fn value_of(r: Self) -> int;

    fn from_usize(value: usize) -> (r: Self)
        ensures
            Self::value_of(r) == value as int,
    ;
}

impl IntoUsize for u8 {
    open spec fn value(self) -> int {
        self as int
    }

    fn into_usize(self) -> (r: usize) {
        self as usize
    }
}

impl IntoUsize for u16 {
    open spec fn value(self) -> int {
        self as int
    }

    fn into_usize(self) -> (r: usize) {
        self as usize
    }
}

impl IntoUsize for u32 {
    open spec fn value(self) -> int {
        self as int
    }

    fn into_usize(self) -> (r: usize) {
        self as usize
    }
}

impl FromUsize for u64 {
    open spec fn value_of(r: u64) -> int {
        r as int
    }

    fn from_usize(value: usize) -> (r: u64) {
        value as u64
    }
}

/// Explicit narrowing: keeps the low bits of `value` that fit in `Self`.
pub trait Truncate<T>: Sized {
    spec fn truncated(value: T) -> Self;

    fn truncate(value: T) -> (r: Self)
        ensures
            r == Self::truncated(value),
    ;
}

impl Truncate<u64> for u8 {
    open spec fn truncated(value: u64) -> u8 {
        (value % 256) as u8
    }

    fn truncate(value: u64) -> (r: u8) {
        (value % 256) as u8
    }
}

/// Masking that narrows the result to the type of the mask.
pub trait BitMask<Mask>: Sized {
    spec fn masked(self, mask: Mask) -> Mask;

    fn bitmask(self, mask: Mask) -> (r: Mask)
        ensures
            r == self.masked(mask),
    ;
}

impl BitMask<u8> for usize {
    open spec fn masked(self, mask: u8) -> u8 {
        (self & (mask as usize)) as u8
    }

    fn bitmask(self, mask: u8) -> (r: u8) {
        (self & (mask as usize)) as u8
    }
}

impl BitMask<u8> for u32 {
    open spec fn masked(self, mask: u8) -> u8 {
        (self & (mask as u32)) as u8
    }

    fn bitmask(self, mask: u8) -> (r: u8) {
        (self & (mask as u32)) as u8
    }
}

} // verus!
