use vstd::prelude::*;

verus! {

/// `Rc::clone` of std: another pointer to the same allocation, so to the
/// same value, as its documentation says; the count is std's business.
#[verifier::external_body]
fn rc_clone<T>(rc: &std::rc::Rc<T>) -> (r: std::rc::Rc<T>)
    ensures
        *r == **rc,
{
    std::rc::Rc::clone(rc)
}

/// A shared, reference-counted value.
pub struct Rc<T> {
    inner: std::rc::Rc<T>,
}

impl<T> View for Rc<T> {
    type V = T;

    closed spec fn view(&self) -> T {
        *self.inner
    }
}

impl<T> Rc<T> {
    pub fn new(value: T) -> (r: Self)
        ensures
            r@ == value,
    {
        Rc { inner: std::rc::Rc::new(value) }
    }

    /// Another handle to the same value.
    pub fn clone(&self) -> (r: Self)
        ensures
            r@ == self@,
    {
        Rc { inner: rc_clone(&self.inner) }
    }

    pub fn as_ref(&self) -> (r: &T)
        ensures
            *r == self@,
    {
        &*self.inner
    }
}

} // verus!
