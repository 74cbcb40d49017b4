use vstd::prelude::*;

verus! {

/// A trait for converting an enum into a slice of all of its variants.
///
/// An implementing enum hands out a slice holding each of its variants
/// once, in declaration order, so that callers can walk every possible
/// value.
pub trait IntoEnumSlice {
    /// Returns a slice containing all the variants of the enum.
    fn variants_slice<'a>() -> &'a [Self] where Self: Sized;
}

} // verus!
