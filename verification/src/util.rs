use vstd::prelude::*;

verus! {

/// A transparent cell for data whose place must not change while other
/// nodes point at it.
///
/// Every field that a list or another node refers to is kept in one of these.
pub struct UnsafePinned<T> {
    pub(crate) inner: T,
}

impl<T> UnsafePinned<T> {
    /// The value held.
    pub closed spec fn view(&self) -> T {
        self.inner
    }

    pub fn new(inner: T) -> (r: Self)
        ensures
            r@ == inner,
    {
        UnsafePinned { inner }
    }

    pub fn get(&self) -> (r: &T)
        ensures
            *r == self@,
    {
        &self.inner
    }

    /// Access to the held value through its fixed place.
    pub fn get_pinned(&self) -> (r: &T)
        ensures
            *r == self@,
    {
        &self.inner
    }
}

pub(crate) broadcast proof fn reveal_pinned_view<T>(p: UnsafePinned<T>)
    ensures
        #[trigger] p@ == p.inner,
{
}

} // verus!
