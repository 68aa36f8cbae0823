use vstd::prelude::*;

verus! {

/// Only the function types named by [`super::Of`] implement it.
pub trait Sealed {}

} // verus!
