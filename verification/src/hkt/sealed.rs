use vstd::prelude::*;

verus! {

/// Only the types of this crate implement [`super::ForLt`].
pub trait Sealed {}

impl<T> Sealed for T where T: super::ForLt {}

} // verus!
