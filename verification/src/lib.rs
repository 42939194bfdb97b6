//! Heapless conversion of integers into their textual representation.
//!
//! Every integer type gets a `numtoa` method that writes the number's
//! digits, in a caller-chosen base from 2 to 36, into the front of a
//! caller-supplied byte buffer and returns how many bytes were written.
//! Nothing is allocated; the buffer may be reused across calls.

use vstd::prelude::*;

pub mod convert;
pub mod repr;

use crate::convert::convert_mag;
use crate::repr::repr;

verus! {

/// Converts a number into a string representation, storing the
/// conversion into a mutable byte slice.
///
/// The representation written is the canonical one given by
/// [`repr`]: most-significant digit first, no leading zeros,
/// uppercase letters for digit values above nine, a leading `-` for
/// negative values, and exactly `"0"` for zero. Only the returned
/// number of leading bytes is meaningful; every byte beyond it is
/// left exactly as it was, so a buffer may be reused across calls.
pub trait NumToA<T>: Sized {
    /// The integer being converted, as a mathematical integer.
    spec fn spec_value(self) -> int;

    /// The base argument, as a mathematical integer.
    spec fn spec_base(base: T) -> int;

    /// Given a base for encoding and a mutable byte slice, write the
    /// number into the byte slice and return the amount of bytes
    /// that were written.
    ///
    /// The buffer must be large enough for the full representation,
    /// sign included, and the base must lie between 2 and 36.
    fn numtoa(self, base: T, string: &mut [u8]) -> (len: usize)
        requires
            2 <= Self::spec_base(base) <= 36,
            old(string).len() >= repr(self.spec_value(), Self::spec_base(base) as nat).len(),
        ensures
            len == repr(self.spec_value(), Self::spec_base(base) as nat).len(),
            final(string)@.len() == old(string)@.len(),
            final(string)@.subrange(0, len as int) == repr(
                self.spec_value(),
                Self::spec_base(base) as nat,
            ),
            forall|i: int|
                len <= i < old(string)@.len() ==> final(string)@[i] == old(string)@[i],
    ;
}

impl NumToA<u8> for u8 {
    open spec fn spec_value(self) -> int {
        self as int
    }

    open spec fn spec_base(base: u8) -> int {
        base as int
    }

    fn numtoa(self, base: u8, string: &mut [u8]) -> (len: usize) {
        convert_mag(self as u64, false, base as u64, string)
    }
}

impl NumToA<u16> for u16 {
    open spec fn spec_value(self) -> int {
        self as int
    }

    open spec fn spec_base(base: u16) -> int {
        base as int
    }

    fn numtoa(self, base: u16, string: &mut [u8]) -> (len: usize) {
        convert_mag(self as u64, false, base as u64, string)
    }
}

impl NumToA<u32> for u32 {
    open spec fn spec_value(self) -> int {
        self as int
    }

    open spec fn spec_base(base: u32) -> int {
        base as int
    }

    fn numtoa(self, base: u32, string: &mut [u8]) -> (len: usize) {
        convert_mag(self as u64, false, base as u64, string)
    }
}

impl NumToA<u64> for u64 {
    open spec fn spec_value(self) -> int {
        self as int
    }

    open spec fn spec_base(base: u64) -> int {
        base as int
    }

    fn numtoa(self, base: u64, string: &mut [u8]) -> (len: usize) {
        convert_mag(self, false, base, string)
    }
}

impl NumToA<usize> for usize {
    open spec fn spec_value(self) -> int {
        self as int
    }

    open spec fn spec_base(base: usize) -> int {
        base as int
    }

    fn numtoa(self, base: usize, string: &mut [u8]) -> (len: usize) {
        convert_mag(self as u64, false, base as u64, string)
    }
}

impl NumToA<i8> for i8 {
    open spec fn spec_value(self) -> int {
        self as int
    }

    open spec fn spec_base(base: i8) -> int {
        base as int
    }

    fn numtoa(self, base: i8, string: &mut [u8]) -> (len: usize) {
        if self < 0 {
            // Negate after widening: the minimum value's magnitude
            // does not fit its own type.
            let mag = -(self as i64);
            convert_mag(mag as u64, true, base as u64, string)
        } else {
            convert_mag(self as u64, false, base as u64, string)
        }
    }
}

impl NumToA<i16> for i16 {
    open spec fn spec_value(self) -> int {
        self as int
    }

    open spec fn spec_base(base: i16) -> int {
        base as int
    }

    fn numtoa(self, base: i16, string: &mut [u8]) -> (len: usize) {
        if self < 0 {
            let mag = -(self as i64);
            convert_mag(mag as u64, true, base as u64, string)
        } else {
            convert_mag(self as u64, false, base as u64, string)
        }
    }
}

impl NumToA<i32> for i32 {
    open spec fn spec_value(self) -> int {
        self as int
    }

    open spec fn spec_base(base: i32) -> int {
        base as int
    }

    fn numtoa(self, base: i32, string: &mut [u8]) -> (len: usize) {
        if self < 0 {
            let mag = -(self as i64);
            convert_mag(mag as u64, true, base as u64, string)
        } else {
            convert_mag(self as u64, false, base as u64, string)
        }
    }
}

impl NumToA<i64> for i64 {
    open spec fn spec_value(self) -> int {
        self as int
    }

    open spec fn spec_base(base: i64) -> int {
        base as int
    }

    fn numtoa(self, base: i64, string: &mut [u8]) -> (len: usize) {
        if self < 0 {
            let mag = -(self as i128);
            convert_mag(mag as u64, true, base as u64, string)
        } else {
            convert_mag(self as u64, false, base as u64, string)
        }
    }
}

impl NumToA<isize> for isize {
    open spec fn spec_value(self) -> int {
        self as int
    }

    open spec fn spec_base(base: isize) -> int {
        base as int
    }

    fn numtoa(self, base: isize, string: &mut [u8]) -> (len: usize) {
        if self < 0 {
            let mag = -(self as i128);
            convert_mag(mag as u64, true, base as u64, string)
        } else {
            convert_mag(self as u64, false, base as u64, string)
        }
    }
}

} // verus!
