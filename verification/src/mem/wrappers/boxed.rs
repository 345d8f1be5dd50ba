use vstd::prelude::*;

verus! {

/// `Box::leak` of std: the boxed value, now never freed, behind a
/// reference for the rest of the program, as its documentation says.
#[verifier::external_body]
fn box_leak<T: 'static>(b: std::boxed::Box<T>) -> (r: &'static mut T)
    ensures
        *r == *b,
{
    std::boxed::Box::leak(b)
}

/// A value kept on the heap.
pub struct Box<T> {
    value: std::boxed::Box<T>,
}

impl<T> View for Box<T> {
    type V = T;

    closed spec fn view(&self) -> T {
        *self.value
    }
}

impl<T> Box<T> {
    pub fn new(value: T) -> (r: Self)
        ensures
            r@ == value,
    {
        Box { value: std::boxed::Box::new(value) }
    }

    /// Moves the value out.
    pub fn take(this: Self) -> (r: T)
        ensures
            r == this@,
    {
        *this.value
    }

    /// Gives up ownership: the value stays on the heap for good.
    pub fn leak(this: Self) -> (r: &'static mut T)
        where
            T: 'static,
        ensures
            *r == this@,
    {
        box_leak(this.value)
    }

    pub fn as_ref(&self) -> (r: &T)
        ensures
            *r == self@,
    {
        &*self.value
    }

    pub fn as_mut(&mut self) -> (r: &mut T)
        ensures
            *r == old(self)@,
            final(self)@ == *final(r),
    {
        &mut *self.value
    }
}

} // verus!
