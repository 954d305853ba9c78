//! Types that have an unaligned byte form, so that slices of them can be read in place
//! from bytes.

use vstd::prelude::*;

verus! {

/// A type whose values are held in an unaligned byte form.
pub trait ULE where Self: Sized {
    /// Why bytes are not a slice of values.
    type Error;

    /// The values held by `bytes`, or why they are not values.
    fn parse_bytes(bytes: &[u8]) -> Result<&[Self], Self::Error>;

    /// The bytes of the values.
    fn as_bytes(slice: &[Self]) -> &[u8];
}

/// A type with an unaligned form.
pub trait AsULE where Self: Sized {
    /// The unaligned form.
    type ULE: ULE;

    /// The value in its unaligned form.
    fn as_unaligned(&self) -> Self::ULE;

    /// The value back from its unaligned form.
    fn from_unaligned(unaligned: &Self::ULE) -> Self;
}

} // verus!
