//! Items that the type-naming helpers rely on; not part of the interface.
mod inner;

pub use core::marker::PhantomData as Pd;

use vstd::prelude::*;

verus! {

/// The type `T` named by a function type `fn(&'a ()) -> Pd<T>`.
pub trait Of<'a>: inner::Sealed {
    type T: ?Sized;
}

impl<'a, T> inner::Sealed for T where T: Of<'a> {}

impl<'a, F, T> Of<'a> for F where T: ?Sized, F: FnOnce(&'a ()) -> Pd<T> {
    type T = T;
}

} // verus!
