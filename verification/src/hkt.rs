//! Names for types that take a lifetime, so that a type can be generic over
//! "some type for every lifetime".
mod sealed;

use core::marker::PhantomData;

use vstd::prelude::*;

verus! {

/// A type constructor that takes a lifetime.
pub trait ForLt: sealed::Sealed {
    type Of<'a>: ?Sized;
}

/// The type that a lifetime-taking type constructor gives for `'a`.
pub trait Hkt<'a> {
    type T: ?Sized;
}

/// Turns an implementor of [`Hkt`] for every lifetime into a [`ForLt`].
#[derive(Debug)]
pub struct Wrapper<T: ?Sized>(PhantomData<T>);

impl<T: ?Sized + for<'a> Hkt<'a>> Wrapper<T> {
    /// The marker value; all values of this type are the same.
    pub fn new() -> Self {
        Wrapper(PhantomData)
    }
}

impl<T: ?Sized> Clone for Wrapper<T> {
    fn clone(&self) -> Self {
        Wrapper(PhantomData)
    }
}

impl<T: ?Sized> Copy for Wrapper<T> {

}

impl<T: ?Sized + for<'a> Hkt<'a>> Default for Wrapper<T> {
    fn default() -> Self {
        Self::new()
    }
}

impl<T: ?Sized> ForLt for Wrapper<T> where T: for<'a> Hkt<'a> {
    type Of<'a> = <T as Hkt<'a>>::T;
}

} // verus!
